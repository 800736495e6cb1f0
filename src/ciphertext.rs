//! Ciphertexts: a deterministic left part, a randomised right part, and the comparison between
//! a left part and a right part.

use std::cmp::Ordering;
use vstd::prelude::*;

use crate::bitlist::{bit_at, bits_of, bytes_for, ReadableBitList, WritableBitList};
use crate::cipher::{valid_blocks, valid_params, Cipher};
use crate::cmp::{cmp_code, compare_blocks, OrderingCMP};
use crate::encoding::{
    decode, decode_sym, enc_values, flatten, is_packing, join, lemma_enc_values_append,
    lemma_flatten_split, parse_values,
};
use crate::error::Error;
use crate::hash::{hf, HashFunction, CMACAES128HF};
use crate::kbkdf::{be16, kdf_output, CMACAES128, KBKDF};
use crate::plaintext::PlainText;
use crate::prf::prf_of;

verus! {

/// What a left part holds: for each block `n`, the PRF block `f_n` and the permuted value `px_n`.
pub struct LeftView {
    pub f: Seq<Seq<u8>>,
    pub px: Seq<u16>,
}

/// What a right part holds: the nonce base, and for each block its row of `W` small values.
pub struct RightView {
    pub nonce_base: Seq<u8>,
    pub values: Seq<Seq<u8>>,
}

/// What a ciphertext holds: its parameters, an optional left part and a right part.
pub struct CipherTextView {
    pub n: nat,
    pub w: nat,
    pub m: u8,
    pub left: Option<LeftView>,
    pub right: RightView,
}

/// The prefix of the identifier under which each block's nonce is derived.
pub open spec fn nonce_id_prefix() -> Seq<u8> {
    seq![82u8, 67u8, 84u8, 110u8, 111u8, 110u8, 99u8, 101u8, 46u8]
}

/// The nonce of block `k`: 16 bytes derived from the nonce base under `"RCTnonce." ‖ BE16(k)`.
pub open spec fn block_nonce(nonce_base: Seq<u8>, k: nat) -> Seq<u8> {
    kdf_output(nonce_base, nonce_id_prefix() + be16(k), 16)
}

/// The left part that encrypts the blocks `x` under PRF key `key` and permutation `perm`.
pub open spec fn left_of(key: Seq<u8>, perm: Seq<u16>, x: Seq<u16>) -> LeftView {
    LeftView {
        f: Seq::new(x.len(), |k: int| prf_of(key, perm[x[k] as int])),
        px: Seq::new(x.len(), |k: int| perm[x[k] as int]),
    }
}

/// The row of a right part for the block value `y`: entry `i` is
/// `(CMP(inv[i], y) + HF(PRF(i), nonce)) mod m`.
pub open spec fn right_row(key: Seq<u8>, inv: Seq<u16>, y: u16, w: nat, m: u8, nonce: Seq<u8>) -> Seq<
    u8,
> {
    Seq::new(
        w,
        |i: int|
            ((cmp_code(m, inv[i] as int, y as int) as int + hf(m, prf_of(key, i as u16), nonce) as int)
                % (m as int)) as u8,
    )
}

/// The rows of the right part that encrypts the blocks `x`.
pub open spec fn right_rows(
    key: Seq<u8>,
    inv: Seq<u16>,
    x: Seq<u16>,
    w: nat,
    m: u8,
    nonce_base: Seq<u8>,
) -> Seq<Seq<u8>> {
    Seq::new(x.len(), |k: int| right_row(key, inv, x[k], w, m, block_nonce(nonce_base, k as nat)))
}

/// A left part is well formed for `n` blocks of width `w`.
pub open spec fn left_wf(l: LeftView, n: nat, w: nat) -> bool {
    &&& l.f.len() == n
    &&& l.px.len() == n
    &&& forall|k: int| 0 <= k < n ==> (#[trigger] l.f[k]).len() == 16
    &&& forall|k: int| 0 <= k < n ==> (#[trigger] l.px[k] as nat) < w
}

/// A right part is well formed for `n` blocks of width `w` and arity `m`.
pub open spec fn right_wf(r: RightView, n: nat, w: nat, m: u8) -> bool {
    &&& r.nonce_base.len() == 16
    &&& r.values.len() == n
    &&& forall|k: int| 0 <= k < n ==> (#[trigger] r.values[k]).len() == w
    &&& forall|k: int, i: int| 0 <= k < n && 0 <= i < w ==> #[trigger] r.values[k][i] < m
}

/// Block `k`'s contribution to a comparison: `(v + M − HF(f_k, nonce_k)) mod M`, where `v` is the
/// right part's value at the left part's permuted value.
pub open spec fn block_result(l: LeftView, r: RightView, k: int, m: u8) -> u8 {
    let v = r.values[k][l.px[k] as int];
    let h = hf(m, l.f[k], block_nonce(r.nonce_base, k as nat));
    ((v as int + m as int - h as int) % (m as int)) as u8
}

/// The first non-zero entry of `s`, or 0 when there is none.
pub open spec fn first_nonzero(s: Seq<u8>) -> u8
    decreases s.len(),
{
    if s.len() == 0 {
        0
    } else {
        let p = first_nonzero(s.drop_last());
        if p != 0 {
            p
        } else {
            s.last()
        }
    }
}

/// The result of comparing the left part `l` with the right part `r`, over `n` blocks.
pub open spec fn compare_code(l: LeftView, r: RightView, n: nat, m: u8) -> u8 {
    first_nonzero(Seq::new(n, |k: int| block_result(l, r, k, m)))
}

/// The number of bytes that hold one permuted value: one when `W ≤ 256`, else two.
pub open spec fn px_width(w: nat) -> nat {
    if w <= 256 {
        1
    } else {
        2
    }
}

/// The length of an encoded left part.
pub open spec fn left_len(n: nat, w: nat) -> nat {
    16 * n + px_width(w) * n
}

/// The permuted value of block `k` as it is read from an encoded left part.
pub open spec fn px_at(b: Seq<u8>, n: nat, w: nat, k: int) -> int {
    if w <= 256 {
        b[16 * n + k] as int
    } else {
        b[16 * n + 2 * k] as int * 256 + b[16 * n + 2 * k + 1] as int
    }
}

/// `b` is the encoding of the left part `l`: the `n` PRF blocks, then the `n` permuted values,
/// each as one byte when `W ≤ 256` and as a big-endian `u16` otherwise.
pub open spec fn left_layout(l: LeftView, b: Seq<u8>, n: nat, w: nat) -> bool {
    &&& b.len() == left_len(n, w)
    &&& forall|k: int, t: int| 0 <= k < n && 0 <= t < 16 ==> b[16 * k + t] == #[trigger] l.f[k][t]
    &&& forall|k: int| 0 <= k < n ==> px_at(b, n, w, k) == #[trigger] l.px[k] as int
}

/// The left part encoded by `b`, when `b` has the right length and every permuted value is
/// less than `W`.
pub open spec fn left_parse(b: Seq<u8>, n: nat, w: nat) -> Option<LeftView> {
    if b.len() == left_len(n, w) && (forall|k: int| 0 <= k < n ==> #[trigger] px_at(b, n, w, k) < w) {
        Some(
            LeftView {
                f: Seq::new(n, |k: int| b.subrange(16 * k, 16 * k + 16)),
                px: Seq::new(n, |k: int| px_at(b, n, w, k) as u16),
            },
        )
    } else {
        None
    }
}

/// `b` is the encoding of the right part `r`: the nonce base, then the packed values.
pub open spec fn right_layout(r: RightView, b: Seq<u8>, m: u8) -> bool {
    &&& b.len() >= 16
    &&& b.take(16) == r.nonce_base
    &&& is_packing(b.skip(16), enc_values(flatten(r.values), m))
}

/// The length of the encoding of the right part `r`.
pub open spec fn right_len(r: RightView, m: u8) -> nat {
    16 + bytes_for(enc_values(flatten(r.values), m).len())
}

/// The nonce base and the values encoded by `b`, for `n` blocks of width `w`.
pub open spec fn right_parse(b: Seq<u8>, n: nat, w: nat, m: u8) -> Option<(Seq<u8>, Seq<u8>)> {
    if b.len() >= 16 {
        match parse_values(b.skip(16), n * w, m) {
            Some(vals) => Some((b.take(16), vals)),
            None => None,
        }
    } else {
        None
    }
}

/// The big-endian `u16` at `i` in `b`.
pub open spec fn be16_value(b: Seq<u8>, i: int) -> nat {
    (b[i] as nat) * 256 + (b[i + 1] as nat)
}

/// A ciphertext's parameters are valid and its parts well formed.
pub open spec fn view_wf(c: CipherTextView) -> bool {
    &&& valid_params(c.n, c.w, c.m)
    &&& right_wf(c.right, c.n, c.w, c.m)
    &&& match c.left {
        Some(l) => left_wf(l, c.n, c.w),
        None => true,
    }
}

/// What parsing an encoded ciphertext recovers: the left part, the nonce base, and the values
/// concatenated block-major.
pub struct ParsedCipherText {
    pub left: Option<LeftView>,
    pub nonce_base: Seq<u8>,
    pub flat: Seq<u8>,
}

/// What parsing the encoding of `c` should recover.
pub open spec fn parsed_of(c: CipherTextView) -> ParsedCipherText {
    ParsedCipherText { left: c.left, nonce_base: c.right.nonce_base, flat: flatten(c.right.values) }
}

/// From `off` on, `b` holds the right part's length as a big-endian `u16`, then the encoded
/// right part of `c`, and nothing else.
pub open spec fn right_section(c: CipherTextView, b: Seq<u8>, off: int) -> bool {
    &&& b.len() >= off + 2
    &&& b.len() - off - 2 <= 65535
    &&& b.subrange(off, off + 2) == be16((b.len() - off - 2) as nat)
    &&& right_layout(c.right, b.subrange(off + 2, b.len() as int), c.m)
}

/// `b` is the encoding of the ciphertext `c`: a type byte (1 with a left part, 0 without);
/// with a left part, its length as a big-endian `u16` and its encoding; then the right part's
/// length as a big-endian `u16` and its encoding.
pub open spec fn ct_layout(c: CipherTextView, b: Seq<u8>) -> bool {
    let ll = left_len(c.n, c.w) as int;
    match c.left {
        Some(l) => {
            &&& ll <= 65535
            &&& b.len() >= 3 + ll
            &&& b[0] == 1
            &&& b.subrange(1, 3) == be16(ll as nat)
            &&& left_layout(l, b.subrange(3, 3 + ll), c.n, c.w)
            &&& right_section(c, b, 3 + ll)
        },
        None => {
            &&& b.len() >= 1
            &&& b[0] == 0
            &&& right_section(c, b, 1)
        },
    }
}

/// The lengths of the parts of `c` fit their `u16` length fields.
pub open spec fn ct_fits(c: CipherTextView) -> bool {
    &&& (c.left is Some ==> left_len(c.n, c.w) <= 65535)
    &&& right_len(c.right, c.m) <= 65535
}

/// Parse the right part's section of `b`, from `off` on.
pub open spec fn right_section_parse(
    n: nat,
    w: nat,
    m: u8,
    b: Seq<u8>,
    off: int,
    left: Option<LeftView>,
) -> Option<ParsedCipherText> {
    if b.len() < off + 2 {
        None
    } else if be16_value(b, off) != b.len() - off - 2 {
        None
    } else {
        match right_parse(b.subrange(off + 2, b.len() as int), n, w, m) {
            None => None,
            Some((nb, flat)) => Some(ParsedCipherText { left, nonce_base: nb, flat }),
        }
    }
}

/// What `b` holds as a ciphertext of `n` blocks of width `w` and arity `m`, if anything.
pub open spec fn ct_parse(n: nat, w: nat, m: u8, b: Seq<u8>) -> Option<ParsedCipherText> {
    if !valid_params(n, w, m) || b.len() == 0 {
        None
    } else if b[0] == 0 {
        right_section_parse(n, w, m, b, 1, None)
    } else if b[0] == 1 {
        if b.len() < 3 {
            None
        } else if b.len() < 3 + be16_value(b, 1) {
            None
        } else {
            match left_parse(b.subrange(3, 3 + be16_value(b, 1) as int), n, w) {
                None => None,
                Some(l) => right_section_parse(n, w, m, b, 3 + be16_value(b, 1) as int, Some(l)),
            }
        }
    } else {
        None
    }
}

/// A copy of `b[start..end]`.
fn copy_range(b: &[u8], start: usize, end: usize) -> (r: Vec<u8>)
    requires
        start <= end <= b@.len(),
    ensures
        r@ == b@.subrange(start as int, end as int),
{
    let mut out: Vec<u8> = Vec::new();
    let mut j: usize = start;
    while j < end
        invariant
            start <= j <= end <= b@.len(),
            out@ == b@.subrange(start as int, j as int),
        decreases end - j,
    {
        out.push(b[j]);
        j = j + 1;
        assert(out@ =~= b@.subrange(start as int, j as int));
    }
    out
}

/// Append `src` to `out`.
fn append(out: &mut Vec<u8>, src: &Vec<u8>)
    ensures
        final(out)@ == old(out)@ + src@,
{
    let ghost start = out@;
    let mut j: usize = 0;
    while j < src.len()
        invariant
            j <= src@.len(),
            out@ == start + src@.take(j as int),
        decreases src@.len() - j,
    {
        out.push(src[j]);
        j = j + 1;
        assert(out@ =~= start + src@.take(j as int));
    }
    assert(src@.take(j as int) =~= src@);
}

/// A copy of a 16-byte slice as an array.
pub fn clone_into_array(slice: &[u8]) -> (r: [u8; 16])
    requires
        slice@.len() == 16,
    ensures
        r@ == slice@,
{
    let r: [u8; 16] = [
        slice[0], slice[1], slice[2], slice[3], slice[4], slice[5], slice[6], slice[7], slice[8],
        slice[9], slice[10], slice[11], slice[12], slice[13], slice[14], slice[15],
    ];
    assert(r@ =~= slice@);
    r
}

/// The deterministic part of a ciphertext.
#[derive(Debug)]
pub struct LeftCipherText {
    /// The PRF block `F(k, p(x_n))` of each block.
    f: Vec<[u8; 16]>,
    /// The permuted value `p(x_n)` of each block.
    px: Vec<u16>,
}

impl LeftCipherText {
    /// What the left part holds.
    pub closed spec fn view(&self) -> LeftView {
        LeftView { f: self.f@.map_values(|a: [u8; 16]| a@), px: self.px@ }
    }

    /// A blank left part of `n` blocks, ready for its blocks to be written.
    pub(crate) fn new(n: usize) -> (r: LeftCipherText)
        ensures
            r.view().f.len() == n,
            r.view().px.len() == n,
            forall|k: int| 0 <= k < n ==> (#[trigger] r.view().f[k]).len() == 16,
    {
        let mut f: Vec<[u8; 16]> = Vec::new();
        let mut px: Vec<u16> = Vec::new();
        let mut k: usize = 0;
        while k < n
            invariant
                k <= n,
                f@.len() == k,
                px@.len() == k,
            decreases n - k,
        {
            f.push([0u8; 16]);
            px.push(0);
            k = k + 1;
        }
        LeftCipherText { f, px }
    }

    /// Encrypt `value` into block `n`: `px_n := p(value)` and `f_n := F(k, px_n)`.
    ///
    /// Fails with a range error when `n` is not less than `N` or `value` not less than `W`.
    pub(crate) fn set_block(&mut self, cipher: &Cipher, n: usize, value: u16) -> (r: Result<
        (),
        Error,
    >)
        requires
            cipher.wf(),
            old(self).view().f.len() == cipher.blocks(),
            old(self).view().px.len() == cipher.blocks(),
        ensures
            (n < cipher.blocks() && (value as nat) < cipher.width()) <==> r is Ok,
            r is Err ==> r->Err_0 is RangeError && final(self).view() == old(self).view(),
            r is Ok ==> final(self).view().px == old(self).view().px.update(
                n as int,
                cipher.perm()[value as int],
            ),
            r is Ok ==> final(self).view().f == old(self).view().f.update(
                n as int,
                prf_of(cipher.prf_key(), cipher.perm()[value as int]),
            ),
    {
        if n >= self.px.len() {
            return Err(Error::RangeError("block index not less than the block count".to_string()));
        }
        let permuted = match cipher.permuted_value(value) {
            Ok(p) => p,
            Err(e) => {
                return Err(e);
            },
        };
        let block = cipher.pseudorandomise(permuted);
        self.px.set(n, permuted);
        self.f.set(n, block);
        proof {
            assert(self.view().f =~= old(self).view().f.update(n as int, block@));
        }
        Ok(())
    }

    /// The PRF block of block `n`.
    pub fn f(&self, n: usize) -> (r: Result<[u8; 16], Error>)
        ensures
            n < self.view().f.len() <==> r is Ok,
            r is Ok ==> r->Ok_0@ == self.view().f[n as int],
            r is Err ==> r->Err_0 is RangeError,
    {
        if n < self.f.len() {
            Ok(self.f[n])
        } else {
            Err(Error::RangeError("block index not less than the block count".to_string()))
        }
    }

    /// The permuted value of block `n`.
    pub fn px(&self, n: usize) -> (r: Result<u16, Error>)
        ensures
            n < self.view().px.len() <==> r is Ok,
            r is Ok ==> r->Ok_0 == self.view().px[n as int],
            r is Err ==> r->Err_0 is RangeError,
    {
        if n < self.px.len() {
            Ok(self.px[n])
        } else {
            Err(Error::RangeError("block index not less than the block count".to_string()))
        }
    }
}

impl LeftCipherText {
    /// The encoding of this left part, for `n` blocks of width `w`.
    pub fn to_vec(&self, n: usize, w: u16) -> (r: Vec<u8>)
        requires
            n <= 65536,
            left_wf(self.view(), n as nat, w as nat),
        ensures
            left_layout(self.view(), r@, n as nat, w as nat),
    {
        let mut out: Vec<u8> = Vec::new();
        let mut k: usize = 0;
        while k < n
            invariant
                n <= 65536,
                left_wf(self.view(), n as nat, w as nat),
                k <= n,
                out@.len() == 16 * k,
                forall|j: int, t: int|
                    0 <= j < k && 0 <= t < 16 ==> out@[16 * j + t] == #[trigger] self.view().f[j][t],
            decreases n - k,
        {
            let block: [u8; 16] = self.f[k];
            assert(block@ == self.view().f[k as int]);
            let mut t: usize = 0;
            while t < 16
                invariant
                    k < n,
                    n <= 65536,
                    block@ == self.view().f[k as int],
                    t <= 16,
                    out@.len() == 16 * k + t,
                    forall|j: int, u: int|
                        0 <= j < k && 0 <= u < 16 ==> out@[16 * j + u] == #[trigger] self.view().f[j][u],
                    forall|u: int| 0 <= u < t ==> out@[16 * k + u] == #[trigger] block@[u],
                decreases 16 - t,
            {
                out.push(block[t]);
                t = t + 1;
            }
            k = k + 1;
        }
        let base: usize = 16 * n;
        let mut k: usize = 0;
        while k < n
            invariant
                n <= 65536,
                base == 16 * n,
                left_wf(self.view(), n as nat, w as nat),
                k <= n,
                out@.len() == base + px_width(w as nat) * k,
                forall|j: int, t: int|
                    0 <= j < n && 0 <= t < 16 ==> out@[16 * j + t] == #[trigger] self.view().f[j][t],
                forall|j: int|
                    0 <= j < k ==> px_at(out@, n as nat, w as nat, j) == #[trigger] self.view().px[j] as int,
            decreases n - k,
        {
            let px: u16 = self.px[k];
            if w <= 256 {
                out.push(px as u8);
            } else {
                out.push((px / 256) as u8);
                out.push((px % 256) as u8);
            }
            k = k + 1;
        }
        out
    }

    /// The left part encoded by `bytes`, for `n` blocks of width `w`.
    ///
    /// Fails with a parse error when the length is not that of `n` blocks or a permuted value is
    /// not less than `w`.
    pub fn from_slice(bytes: &[u8], n: usize, w: u16) -> (r: Result<LeftCipherText, Error>)
        requires
            n <= 65536,
        ensures
            left_parse(bytes@, n as nat, w as nat) is Some <==> r is Ok,
            r is Ok ==> r->Ok_0.view() == left_parse(bytes@, n as nat, w as nat)->0,
            r is Err ==> r->Err_0 is ParseError,
    {
        let pw: usize = if w <= 256 { 1 } else { 2 };
        if bytes.len() != 16 * n + pw * n {
            return Err(Error::ParseError("left part has the wrong length".to_string()));
        }
        let base: usize = 16 * n;
        let mut f: Vec<[u8; 16]> = Vec::new();
        let mut px: Vec<u16> = Vec::new();
        let mut k: usize = 0;
        while k < n
            invariant
                n <= 65536,
                base == 16 * n,
                pw == px_width(w as nat),
                bytes@.len() == left_len(n as nat, w as nat),
                k <= n,
                f@.len() == k,
                px@.len() == k,
                forall|j: int|
                    0 <= j < k ==> (#[trigger] f@[j])@ == bytes@.subrange(16 * j, 16 * j + 16),
                forall|j: int| 0 <= j < k ==> (#[trigger] px@[j]) as int == px_at(bytes@, n as nat, w as nat, j),
                forall|j: int| 0 <= j < k ==> px_at(bytes@, n as nat, w as nat, j) < w,
            decreases n - k,
        {
            let o: usize = 16 * k;
            let block: [u8; 16] = [
                bytes[o], bytes[o + 1], bytes[o + 2], bytes[o + 3], bytes[o + 4], bytes[o + 5],
                bytes[o + 6], bytes[o + 7], bytes[o + 8], bytes[o + 9], bytes[o + 10],
                bytes[o + 11], bytes[o + 12], bytes[o + 13], bytes[o + 14], bytes[o + 15],
            ];
            assert(block@ =~= bytes@.subrange(16 * k as int, 16 * k as int + 16));
            let v: u16 = if w <= 256 {
                bytes[base + k] as u16
            } else {
                (bytes[base + 2 * k] as u16) * 256 + bytes[base + 2 * k + 1] as u16
            };
            assert(v as int == px_at(bytes@, n as nat, w as nat, k as int));
            if v >= w {
                return Err(Error::ParseError("permuted value not less than the block width".to_string()));
            }
            f.push(block);
            px.push(v);
            k = k + 1;
        }
        let r = LeftCipherText { f, px };
        assert(r.view().f =~= left_parse(bytes@, n as nat, w as nat)->0.f);
        assert(r.view().px =~= left_parse(bytes@, n as nat, w as nat)->0.px);
        Ok(r)
    }
}

/// The randomised part of a ciphertext.
#[derive(Debug)]
pub struct RightCipherText {
    /// The base from which each block's nonce is derived.
    nonce_base: [u8; 16],
    /// Each block's nonce, derived once from the base.
    nonces: Vec<[u8; 16]>,
    /// Each block's row of `W` values.
    values: Vec<Vec<u8>>,
}

/// The nonces of blocks `0..n`, derived from `nonce_base`.
fn cache_nonces(nonce_base: &[u8; 16], n: usize) -> (r: Vec<[u8; 16]>)
    requires
        n <= 65536,
    ensures
        r@.len() == n,
        forall|k: int| 0 <= k < n ==> (#[trigger] r@[k])@ == block_nonce(nonce_base@, k as nat),
{
    let ndf = match CMACAES128::new(nonce_base) {
        Ok(d) => d,
        Err(_) => {
            return Vec::new();
        },
    };
    let mut out: Vec<[u8; 16]> = Vec::new();
    let mut i: usize = 0;
    while i < n
        invariant
            n <= 65536,
            i <= n,
            ndf.key() == nonce_base@,
            out@.len() == i,
            forall|k: int| 0 <= k < i ==> (#[trigger] out@[k])@ == block_nonce(nonce_base@, k as nat),
        decreases n - i,
    {
        // "RCTnonce." ‖ BE16(i)
        let mut id: Vec<u8> = vec![82u8, 67u8, 84u8, 110u8, 111u8, 110u8, 99u8, 101u8, 46u8];
        id.push((i / 256) as u8);
        id.push((i % 256) as u8);
        assert(id@ =~= nonce_id_prefix() + be16(i as nat));
        let nonce = match ndf.derive_key(16, id.as_slice()) {
            Ok(v) => clone_into_array(v.as_slice()),
            Err(_) => [0u8; 16],
        };
        out.push(nonce);
        i = i + 1;
    }
    out
}

impl RightCipherText {
    /// What the right part holds.
    pub closed spec fn view(&self) -> RightView {
        RightView {
            nonce_base: self.nonce_base@,
            values: self.values@.map_values(|v: Vec<u8>| v@),
        }
    }

    /// How many block nonces are cached.
    pub closed spec fn nonce_count(&self) -> nat {
        self.nonces@.len()
    }

    /// The cached nonce of block `k`.
    pub closed spec fn cached_nonce(&self, k: int) -> Seq<u8> {
        self.nonces@[k]@
    }

    /// Well formed for `n` blocks of width `w` and arity `m`, with each block's nonce derived
    /// from the nonce base.
    pub closed spec fn wf(&self, n: nat, w: nat, m: u8) -> bool {
        &&& right_wf(self.view(), n, w, m)
        &&& self.nonces@.len() == n
        &&& forall|k: int|
            0 <= k < n ==> (#[trigger] self.nonces@[k])@ == block_nonce(self.nonce_base@, k as nat)
    }

    /// A blank right part of `n` blocks of width `w` on the given nonce base.
    pub(crate) fn new(nonce_base: [u8; 16], n: usize, w: u16, m: u8) -> (r: RightCipherText)
        requires
            n <= 65536,
            m > 0,
        ensures
            r.wf(n as nat, w as nat, m),
            r.view().nonce_base == nonce_base@,
    {
        let nonces = cache_nonces(&nonce_base, n);
        let mut values: Vec<Vec<u8>> = Vec::new();
        let mut k: usize = 0;
        while k < n
            invariant
                k <= n,
                m > 0,
                values@.len() == k,
                forall|j: int| 0 <= j < k ==> (#[trigger] values@[j])@.len() == w,
                forall|j: int, i: int| 0 <= j < k && 0 <= i < w ==> #[trigger] values@[j]@[i] == 0,
            decreases n - k,
        {
            let mut row: Vec<u8> = Vec::new();
            let mut i: u16 = 0;
            while i < w
                invariant
                    i <= w,
                    row@.len() == i,
                    forall|j: int| 0 <= j < i ==> #[trigger] row@[j] == 0,
                decreases w - i,
            {
                row.push(0);
                i = i + 1;
            }
            values.push(row);
            k = k + 1;
        }
        RightCipherText { nonce_base, nonces, values }
    }

    /// Encrypt the block value `y` into block `n`: entry `i` of the row becomes
    /// `(CMP(p⁻¹(i), y) + HF(F(k, i), nonce_n)) mod M`.
    ///
    /// Fails with a range error when `n` is not less than `N` or `y` not less than `W`.
    pub(crate) fn set_block(&mut self, cipher: &Cipher, n: usize, y: u16) -> (r: Result<(), Error>)
        requires
            cipher.wf(),
            old(self).wf(cipher.blocks(), cipher.width(), cipher.arity()),
        ensures
            (n < cipher.blocks() && (y as nat) < cipher.width()) <==> r is Ok,
            final(self).wf(cipher.blocks(), cipher.width(), cipher.arity()),
            final(self).view().nonce_base == old(self).view().nonce_base,
            r is Err ==> r->Err_0 is RangeError && final(self).view() == old(self).view(),
            r is Ok ==> final(self).view().values == old(self).view().values.update(
                n as int,
                right_row(
                    cipher.prf_key(),
                    cipher.inv(),
                    y,
                    cipher.width(),
                    cipher.arity(),
                    block_nonce(old(self).view().nonce_base, n as nat),
                ),
            ),
    {
        if n >= self.values.len() {
            return Err(Error::RangeError("block index not less than the block count".to_string()));
        }
        let w = cipher.block_width();
        let m = cipher.comparator_arity();
        if y >= w {
            return Err(Error::RangeError("block value not less than the block width".to_string()));
        }
        let ghost target = right_row(
            cipher.prf_key(),
            cipher.inv(),
            y,
            cipher.width(),
            cipher.arity(),
            block_nonce(self.view().nonce_base, n as nat),
        );
        let nonce: [u8; 16] = self.nonces[n];
        let mut row: Vec<u8> = Vec::new();
        let mut i: u16 = 0;
        while i < w
            invariant
                cipher.wf(),
                w == cipher.width(),
                m == cipher.arity(),
                n < self.nonces@.len(),
                nonce@ == block_nonce(self.nonce_base@, n as nat),
                target == right_row(
                    cipher.prf_key(),
                    cipher.inv(),
                    y,
                    cipher.width(),
                    cipher.arity(),
                    block_nonce(self.nonce_base@, n as nat),
                ),
                i <= w,
                row@.len() == i,
                forall|j: int| 0 <= j < i ==> #[trigger] row@[j] == target[j],
                forall|j: int| 0 <= j < i ==> #[trigger] row@[j] < m,
            decreases w - i,
        {
            let b = cipher.pseudorandomise(i);
            let q = match cipher.inverse_permuted_value(i) {
                Ok(q) => q,
                Err(_) => 0,
            };
            let p = compare_blocks(m, q, y);
            let h = match CMACAES128HF::hash(m, &b, &nonce) {
                Ok(h) => h,
                Err(_) => 0,
            };
            let v: u8 = (p + h) % m;
            row.push(v);
            i = i + 1;
        }
        assert(row@ =~= target);
        self.values.set(n, row);
        proof {
            assert(self.view().values =~= old(self).view().values.update(n as int, target));
        }
        Ok(())
    }

    /// The value at position `px` of block `n`'s row.
    pub fn value(&self, n: usize, px: u16) -> (r: Result<u8, Error>)
        ensures
            (n < self.view().values.len() && (px as int) < self.view().values[n as int].len())
                <==> r is Ok,
            r is Ok ==> r->Ok_0 == self.view().values[n as int][px as int],
            r is Err ==> r->Err_0 is RangeError,
    {
        if n < self.values.len() && (px as usize) < self.values[n].len() {
            Ok(self.values[n][px as usize])
        } else {
            Err(Error::RangeError("no such block or value in the right part".to_string()))
        }
    }

    /// The nonce of block `n`.
    pub fn nonce(&self, n: usize) -> (r: Result<[u8; 16], Error>)
        ensures
            n < self.nonce_count() <==> r is Ok,
            r is Ok ==> r->Ok_0@ == self.cached_nonce(n as int),
            r is Err ==> r->Err_0 is RangeError,
    {
        if n < self.nonces.len() {
            Ok(self.nonces[n])
        } else {
            Err(Error::RangeError("block index not less than the block count".to_string()))
        }
    }
}

/// The largest number of value bits that an encoded right part can hold.
pub const MAX_PACKED_BITS: usize = 524152;

impl RightCipherText {
    /// Pack every value, block-major, with the comparator's code, padded with zero bits to a
    /// whole byte.
    ///
    /// Fails with a range error when the packed values would not fit in an encoded right part.
    fn pack_values(&self, n: usize, w: u16, m: u8) -> (r: Result<Vec<u8>, Error>)
        requires
            valid_params(n as nat, w as nat, m),
            self.wf(n as nat, w as nat, m),
        ensures
            r is Ok <==> enc_values(flatten(self.view().values), m).len() <= MAX_PACKED_BITS,
            r is Ok ==> is_packing(r->Ok_0@, enc_values(flatten(self.view().values), m)),
            r is Err ==> r->Err_0 is RangeError,
    {
        let ghost vals = self.view().values;
        let mut bl = WritableBitList::new(n);
        let mut k: usize = 0;
        while k < n
            invariant
                valid_params(n as nat, w as nat, m),
                self.wf(n as nat, w as nat, m),
                vals == self.view().values,
                k <= n,
                bl.wf(),
                bl@ == enc_values(flatten(vals.take(k as int)), m),
                bl@.len() <= MAX_PACKED_BITS,
                bl.bytes().len() == bytes_for(bl@.len()),
                forall|j: int| bl@.len() <= j < 8 * bl.bytes().len() ==> !#[trigger] bit_at(bl.bytes(), j),
            decreases n - k,
        {
            let ghost before = flatten(vals.take(k as int));
            let mut i: u16 = 0;
            while i < w
                invariant
                    valid_params(n as nat, w as nat, m),
                    self.wf(n as nat, w as nat, m),
                    vals == self.view().values,
                    k < n,
                    i <= w,
                    before == flatten(vals.take(k as int)),
                    bl.wf(),
                    bl@ == enc_values(before + vals[k as int].take(i as int), m),
                    bl@.len() <= MAX_PACKED_BITS,
                    bl.bytes().len() == bytes_for(bl@.len()),
                    forall|j: int|
                        bl@.len() <= j < 8 * bl.bytes().len() ==> !#[trigger] bit_at(bl.bytes(), j),
                decreases w - i,
            {
                assert(self.values@[k as int]@ == vals[k as int]);
                let v: u8 = self.values[k][i as usize];
                let ghost x = before + vals[k as int].take(i as int);
                assert((x.push(v)).drop_last() =~= x);
                assert(before + vals[k as int].take(i + 1) =~= x.push(v));
                if m == 2 {
                    let _ = bl.push(v != 0);
                } else if v == 0 {
                    let _ = bl.push(false);
                } else {
                    let _ = bl.push(true);
                    let _ = bl.push(v > 1);
                }
                assert(bl@ =~= enc_values(x.push(v), m));
                if bl.len() > MAX_PACKED_BITS {
                    proof {
                        let xs = x.push(v);
                        let rest = vals[k as int].skip(i + 1) + flatten(vals.skip(k + 1));
                        lemma_flatten_split(vals, k as int);
                        assert(vals[k as int] =~= vals[k as int].take(i + 1) + vals[k as int].skip(i + 1));
                        assert(flatten(vals) =~= xs + rest);
                        lemma_enc_values_append(xs, rest, m);
                    }
                    return Err(Error::RangeError("packed values too long for a ciphertext".to_string()));
                }
                i = i + 1;
            }
            proof {
                assert(vals.take(k + 1).drop_last() =~= vals.take(k as int));
                assert(vals[k as int].take(w as int) =~= vals[k as int]);
            }
            k = k + 1;
        }
        assert(vals.take(n as int) =~= vals);
        let bytes = bl.vec();
        proof {
            bl.lemma_view();
            assert forall|j: int| 0 <= j < bl@.len() implies #[trigger] bit_at(bytes@, j) == bl@[j] by {
                assert(bl@[j] == bits_of(bl.bytes())[j]);
            }
        }
        Ok(bytes)
    }

    /// The encoding of this right part: the nonce base, then the packed values.
    ///
    /// Fails with a range error when the encoding would be longer than 65535 bytes.
    pub fn to_vec(&self, n: usize, w: u16, m: u8) -> (r: Result<Vec<u8>, Error>)
        requires
            valid_params(n as nat, w as nat, m),
            self.wf(n as nat, w as nat, m),
        ensures
            r is Ok <==> right_len(self.view(), m) <= 65535,
            r is Ok ==> right_layout(self.view(), r->Ok_0@, m),
            r is Err ==> r->Err_0 is RangeError,
    {
        let packed = match self.pack_values(n, w, m) {
            Ok(p) => p,
            Err(e) => {
                return Err(e);
            },
        };
        let mut out: Vec<u8> = Vec::new();
        let mut t: usize = 0;
        while t < 16
            invariant
                t <= 16,
                out@ == self.nonce_base@.take(t as int),
            decreases 16 - t,
        {
            out.push(self.nonce_base[t]);
            t = t + 1;
            assert(out@ =~= self.nonce_base@.take(t as int));
        }
        let mut j: usize = 0;
        while j < packed.len()
            invariant
                j <= packed@.len(),
                out@ == self.nonce_base@ + packed@.take(j as int),
            decreases packed@.len() - j,
        {
            out.push(packed[j]);
            j = j + 1;
            assert(out@ =~= self.nonce_base@ + packed@.take(j as int));
        }
        assert(packed@.take(j as int) =~= packed@);
        assert(out@.take(16) =~= self.nonce_base@);
        assert(out@.skip(16) =~= packed@);
        Ok(out)
    }

    /// Unpack `n` rows of `w` values, then check that only the padding bits of the last byte
    /// follow them.
    ///
    /// Fails with a parse error when the bits run out, or when a whole byte follows the values.
    fn unpack_values(bytes: &[u8], n: usize, w: u16, m: u8) -> (r: Result<Vec<Vec<u8>>, Error>)
        requires
            valid_params(n as nat, w as nat, m),
            bytes@.len() <= 65535,
        ensures
            parse_values(bytes@, (n * w) as nat, m) is Some <==> r is Ok,
            r is Ok ==> right_wf(
                RightView { nonce_base: seq![0u8; 16], values: r->Ok_0@.map_values(|v: Vec<u8>| v@) },
                n as nat,
                w as nat,
                m,
            ),
            r is Ok ==> flatten(r->Ok_0@.map_values(|v: Vec<u8>| v@)) == parse_values(
                bytes@,
                (n * w) as nat,
                m,
            )->0,
            r is Err ==> r->Err_0 is ParseError,
    {
        let mut bl = ReadableBitList::from_slice(bytes);
        let ghost bits = bits_of(bytes@);
        let ghost total: nat = (n * w) as nat;
        let ghost mut flat: Seq<u8> = Seq::empty();
        let mut rows: Vec<Vec<u8>> = Vec::new();
        let mut k: usize = 0;
        while k < n
            invariant
                valid_params(n as nat, w as nat, m),
                bits == bits_of(bytes@),
                total == n * w,
                bl.wf(),
                bl.bytes() == bytes@,
                k <= n,
                rows@.len() == k,
                forall|j: int| 0 <= j < k ==> (#[trigger] rows@[j])@.len() == w,
                forall|j: int, i: int| 0 <= j < k && 0 <= i < w ==> #[trigger] rows@[j]@[i] < m,
                flat == flatten(rows@.map_values(|v: Vec<u8>| v@)),
                flat.len() == k * w,
                decode(bits, 0, total, m) == join(flat, decode(bits, bl.position(), (total - flat.len()) as nat, m)),
            decreases n - k,
        {
            let mut row: Vec<u8> = Vec::new();
            let ghost start = flat;
            let mut i: u16 = 0;
            while i < w
                invariant
                    valid_params(n as nat, w as nat, m),
                    bits == bits_of(bytes@),
                    total == n * w,
                    bl.wf(),
                    bl.bytes() == bytes@,
                    k < n,
                    i <= w,
                    start.len() == k * w,
                    flat == start + row@,
                    row@.len() == i,
                    forall|j: int| 0 <= j < i ==> #[trigger] row@[j] < m,
                    decode(bits, 0, total, m) == join(flat, decode(bits, bl.position(), (total - flat.len()) as nat, m)),
                decreases w - i,
            {
                let ghost pos0 = bl.position();
                let ghost c: nat = (total - flat.len()) as nat;
                assert(k * w + i < n * w) by (nonlinear_arith)
                    requires
                        k < n,
                        i < w,
                ;
                let b1 = bl.shift();
                let v: u8 = match b1 {
                    None => {
                        assert(decode_sym(bits, pos0, m) is None);
                        assert(decode(bits, pos0, c, m) is None);
                        return Err(Error::ParseError("end of data while unpacking values".to_string()));
                    },
                    Some(b1) => {
                        if m == 2 {
                            if b1 { 1 } else { 0 }
                        } else if !b1 {
                            0
                        } else {
                            match bl.shift() {
                                None => {
                                    assert(decode_sym(bits, pos0, m) is None);
                                    assert(decode(bits, pos0, c, m) is None);
                                    return Err(Error::ParseError("end of data while unpacking values".to_string()));
                                },
                                Some(b2) => if b2 { 2 } else { 1 },
                            }
                        }
                    },
                };
                proof {
                    let l = (bl.position() - pos0) as nat;
                    assert(decode_sym(bits, pos0, m) == Some((v, l)));
                    let d = decode(bits, bl.position(), (c - 1) as nat, m);
                    assert(decode(bits, pos0, c, m) == join(seq![v], d));
                    match d {
                        None => {},
                        Some((s, p)) => {
                            assert(flat + (seq![v] + s) =~= flat.push(v) + s);
                        },
                    }
                }
                row.push(v);
                proof {
                    flat = flat.push(v);
                    assert(flat =~= start + row@);
                }
                i = i + 1;
            }
            let ghost rows_before = rows@.map_values(|v: Vec<u8>| v@);
            rows.push(row);
            proof {
                let rv = rows@.map_values(|v: Vec<u8>| v@);
                assert(rv.drop_last() =~= rows_before);
                assert((k + 1) * w == k * w + w) by (nonlinear_arith);
            }
            k = k + 1;
        }
        proof {
            assert(decode(bits, bl.position(), 0, m) == Some((Seq::<u8>::empty(), bl.position())));
            assert(flat + Seq::<u8>::empty() =~= flat);
        }
        if !bl.fully_consumed() {
            return Err(Error::ParseError("data beyond the packed values".to_string()));
        }
        assert(decode(bits, 0, total, m) == Some((flat, bl.position())));
        Ok(rows)
    }

    /// The right part encoded by `bytes`, for `n` blocks of width `w` and arity `m`; each block's
    /// nonce is derived again from the nonce base.
    ///
    /// Fails with a parse error when `bytes` does not hold a nonce base followed by exactly the
    /// packed values and the padding bits of their last byte.
    pub fn from_slice(bytes: &[u8], n: usize, w: u16, m: u8) -> (r: Result<RightCipherText, Error>)
        requires
            valid_params(n as nat, w as nat, m),
            bytes@.len() <= 65535,
        ensures
            right_parse(bytes@, n as nat, w as nat, m) is Some <==> r is Ok,
            r is Ok ==> r->Ok_0.wf(n as nat, w as nat, m),
            r is Ok ==> r->Ok_0.view().nonce_base == (right_parse(bytes@, n as nat, w as nat, m)->0).0,
            r is Ok ==> flatten(r->Ok_0.view().values) == (right_parse(bytes@, n as nat, w as nat, m)->0).1,
            r is Err ==> r->Err_0 is ParseError,
    {
        if bytes.len() < 16 {
            return Err(Error::ParseError("end of data while reading the nonce base".to_string()));
        }
        let nonce_base: [u8; 16] = [
            bytes[0], bytes[1], bytes[2], bytes[3], bytes[4], bytes[5], bytes[6], bytes[7],
            bytes[8], bytes[9], bytes[10], bytes[11], bytes[12], bytes[13], bytes[14], bytes[15],
        ];
        assert(nonce_base@ =~= bytes@.take(16));
        let mut rest: Vec<u8> = Vec::new();
        let mut j: usize = 16;
        while j < bytes.len()
            invariant
                16 <= j <= bytes@.len(),
                rest@ == bytes@.subrange(16, j as int),
            decreases bytes@.len() - j,
        {
            rest.push(bytes[j]);
            j = j + 1;
            assert(rest@ =~= bytes@.subrange(16, j as int));
        }
        assert(rest@ =~= bytes@.skip(16));
        let values = match RightCipherText::unpack_values(rest.as_slice(), n, w, m) {
            Ok(v) => v,
            Err(e) => {
                return Err(e);
            },
        };
        let nonces = cache_nonces(&nonce_base, n);
        let r = RightCipherText { nonce_base, nonces, values };
        Ok(r)
    }
}

/// The view of an optional left part.
pub open spec fn opt_left_view(l: Option<LeftCipherText>) -> Option<LeftView> {
    match l {
        Some(l) => Some(l.view()),
        None => None,
    }
}

/// Conversion of a value to and from the bytes of the wire format.
pub trait Serializable: Sized {
    /// The value is well formed.
    spec fn valid(&self) -> bool;

    /// `bytes` is the encoding of this value.
    spec fn encoded_by(&self, bytes: Seq<u8>) -> bool;

    /// This value's encoding fits the format's length fields.
    spec fn encodable(&self) -> bool;

    /// `bytes` holds a value for `n` blocks of width `w` under the comparator of arity `m`.
    spec fn parsable(bytes: Seq<u8>, n: nat, w: nat, m: u8) -> bool;

    /// `v` is the value that `bytes` holds for those parameters.
    spec fn parses_to(bytes: Seq<u8>, n: nat, w: nat, m: u8, v: Self) -> bool;

    /// The value encoded by `bytes` for `n` blocks of width `w` under the comparator of arity
    /// `m`; fails with a parse error when `bytes` holds no such value.
    fn from_slice(bytes: &[u8], n: usize, w: u16, m: u8) -> (r: Result<Self, Error>)
        ensures
            Self::parsable(bytes@, n as nat, w as nat, m) <==> r is Ok,
            r is Ok ==> Self::parses_to(bytes@, n as nat, w as nat, m, r->Ok_0),
            r is Err ==> r->Err_0 is ParseError,
    ;

    /// The encoding of this value; fails with a range error when it does not fit the format.
    fn to_vec(&self) -> (r: Result<Vec<u8>, Error>)
        ensures
            self.valid(),
            self.encodable() <==> r is Ok,
            r is Ok ==> self.encoded_by(r->Ok_0@),
            r is Err ==> r->Err_0 is RangeError,
    ;
}

/// A comparison-revealing encrypted value.
#[derive(Debug)]
pub struct CipherText {
    /// The number of blocks.
    n: usize,
    /// The width of each block.
    w: u16,
    /// The comparator's arity.
    m: u8,
    /// The left part, present in a full ciphertext.
    left: Option<LeftCipherText>,
    /// The right part.
    right: RightCipherText,
}

impl CipherText {
    /// Every ciphertext is well formed.
    #[verifier::type_invariant]
    closed spec fn inv(self) -> bool {
        self.wf()
    }

    /// What the ciphertext holds.
    pub closed spec fn view(&self) -> CipherTextView {
        CipherTextView {
            n: self.n as nat,
            w: self.w as nat,
            m: self.m,
            left: opt_left_view(self.left),
            right: self.right.view(),
        }
    }

    /// Valid parameters, and well-formed parts with each block's nonce cached.
    pub closed spec fn wf(&self) -> bool {
        &&& valid_params(self.n as nat, self.w as nat, self.m)
        &&& self.right.wf(self.n as nat, self.w as nat, self.m)
        &&& match self.left {
            Some(l) => left_wf(l.view(), self.n as nat, self.w as nat),
            None => true,
        }
    }

    /// This ciphertext encrypts the blocks `x` under `cipher`, with a left part iff `full`.
    pub open spec fn encrypts(&self, cipher: Cipher, x: Seq<u16>, full: bool) -> bool {
        let v = self.view();
        &&& self.wf()
        &&& view_wf(v)
        &&& v.n == cipher.blocks()
        &&& v.w == cipher.width()
        &&& v.m == cipher.arity()
        &&& v.left is Some <==> full
        &&& full ==> v.left->0 == left_of(cipher.prf_key(), cipher.perm(), x)
        &&& v.right.values == right_rows(
            cipher.prf_key(),
            cipher.inv(),
            x,
            cipher.width(),
            cipher.arity(),
            v.right.nonce_base,
        )
    }

    /// Check that `pt` has `N` blocks each less than `W`.
    fn check_plaintext(cipher: &Cipher, pt: &PlainText) -> (r: Result<(), Error>)
        ensures
            valid_blocks(pt@, cipher.blocks(), cipher.width()) <==> r is Ok,
            r is Err ==> r->Err_0 is RangeError,
    {
        let n = cipher.block_count();
        let w = cipher.block_width();
        if pt.0.len() != n {
            return Err(Error::RangeError("plaintext does not have the cipher's block count".to_string()));
        }
        let mut k: usize = 0;
        while k < n
            invariant
                k <= n,
                n == cipher.blocks(),
                w == cipher.width(),
                pt@.len() == n,
                forall|j: int| 0 <= j < k ==> (#[trigger] pt@[j] as nat) < w,
            decreases n - k,
        {
            if pt.0[k] >= w {
                return Err(Error::RangeError("plaintext block not less than the block width".to_string()));
            }
            k = k + 1;
        }
        Ok(())
    }

    /// Encrypt `plaintext` into the right part `right`, block by block.
    fn fill_right(cipher: &Cipher, plaintext: &PlainText, right: &mut RightCipherText)
        requires
            cipher.wf(),
            valid_blocks(plaintext@, cipher.blocks(), cipher.width()),
            old(right).wf(cipher.blocks(), cipher.width(), cipher.arity()),
        ensures
            final(right).wf(cipher.blocks(), cipher.width(), cipher.arity()),
            final(right).view().nonce_base == old(right).view().nonce_base,
            final(right).view().values == right_rows(
                cipher.prf_key(),
                cipher.inv(),
                plaintext@,
                cipher.width(),
                cipher.arity(),
                old(right).view().nonce_base,
            ),
    {
        let n = cipher.block_count();
        let ghost nb = right.view().nonce_base;
        let ghost target = right_rows(
            cipher.prf_key(),
            cipher.inv(),
            plaintext@,
            cipher.width(),
            cipher.arity(),
            nb,
        );
        let mut k: usize = 0;
        while k < n
            invariant
                cipher.wf(),
                n == cipher.blocks(),
                valid_blocks(plaintext@, cipher.blocks(), cipher.width()),
                right.wf(cipher.blocks(), cipher.width(), cipher.arity()),
                right.view().nonce_base == nb,
                target == right_rows(
                    cipher.prf_key(),
                    cipher.inv(),
                    plaintext@,
                    cipher.width(),
                    cipher.arity(),
                    nb,
                ),
                k <= n,
                forall|j: int| 0 <= j < k ==> #[trigger] right.view().values[j] == target[j],
            decreases n - k,
        {
            let y = plaintext.0[k];
            let _ = right.set_block(cipher, k, y);
            k = k + 1;
        }
        assert(right.view().values =~= target);
    }

    /// Encrypt `plaintext` into a ciphertext with both parts.
    pub(crate) fn new(cipher: &mut Cipher, plaintext: &PlainText) -> (r: Result<CipherText, Error>)
        requires
            old(cipher).wf(),
        ensures
            final(cipher).wf(),
            final(cipher).same_key(*old(cipher)),
            valid_blocks(plaintext@, old(cipher).blocks(), old(cipher).width()) <==> r is Ok,
            r is Err ==> r->Err_0 is RangeError,
            r is Ok ==> r->Ok_0.encrypts(*old(cipher), plaintext@, true),
    {
        match CipherText::check_plaintext(cipher, plaintext) {
            Ok(()) => {},
            Err(e) => {
                return Err(e);
            },
        }
        let mut left = cipher.new_left();
        let mut right = cipher.new_right();
        let n = cipher.block_count();
        let ghost target = left_of(cipher.prf_key(), cipher.perm(), plaintext@);
        let mut k: usize = 0;
        while k < n
            invariant
                cipher.wf(),
                n == cipher.blocks(),
                valid_blocks(plaintext@, cipher.blocks(), cipher.width()),
                target == left_of(cipher.prf_key(), cipher.perm(), plaintext@),
                left.view().f.len() == n,
                left.view().px.len() == n,
                k <= n,
                forall|j: int| 0 <= j < k ==> #[trigger] left.view().f[j] == target.f[j],
                forall|j: int| 0 <= j < k ==> #[trigger] left.view().px[j] == target.px[j],
            decreases n - k,
        {
            let _ = left.set_block(cipher, k, plaintext.0[k]);
            k = k + 1;
        }
        CipherText::fill_right(cipher, plaintext, &mut right);
        proof {
            assert(left.view().f =~= target.f);
            assert(left.view().px =~= target.px);
            assert forall|j: int| 0 <= j < n implies (#[trigger] left.view().f[j]).len() == 16 by {
                assert(left.view().f[j] == prf_of(cipher.prf_key(), cipher.perm()[plaintext@[j] as int]));
            }
        }
        let ct = CipherText { n, w: cipher.block_width(), m: cipher.comparator_arity(), left: Some(left), right };
        Ok(ct)
    }

    /// Encrypt `plaintext` into a ciphertext with only a right part.
    pub(crate) fn new_right(cipher: &mut Cipher, plaintext: &PlainText) -> (r: Result<
        CipherText,
        Error,
    >)
        requires
            old(cipher).wf(),
        ensures
            final(cipher).wf(),
            final(cipher).same_key(*old(cipher)),
            valid_blocks(plaintext@, old(cipher).blocks(), old(cipher).width()) <==> r is Ok,
            r is Err ==> r->Err_0 is RangeError,
            r is Ok ==> r->Ok_0.encrypts(*old(cipher), plaintext@, false),
    {
        match CipherText::check_plaintext(cipher, plaintext) {
            Ok(()) => {},
            Err(e) => {
                return Err(e);
            },
        }
        let mut right = cipher.new_right();
        CipherText::fill_right(cipher, plaintext, &mut right);
        Ok(CipherText { n: cipher.block_count(), w: cipher.block_width(), m: cipher.comparator_arity(), left: None, right })
    }

    /// Whether this ciphertext has a left part.
    pub fn has_left(&self) -> (r: bool)
        ensures
            r == self.view().left is Some,
    {
        self.left.is_some()
    }

    /// Compare this ciphertext, as the left operand, with `other`, as the right operand.
    ///
    /// The result is in `[0, M)` and is interpreted by the comparator: 0 means equal. Fails with
    /// a comparison error when this ciphertext has no left part or when the two ciphertexts have
    /// different parameters.
    pub fn compare(&self, other: &CipherText) -> (r: Result<u8, Error>)
        ensures
            (self.view().left is Some && self.view().n == other.view().n && self.view().w
                == other.view().w && self.view().m == other.view().m) <==> r is Ok,
            r is Err ==> r->Err_0 is ComparisonError,
            r is Ok ==> r->Ok_0 == compare_code(
                self.view().left->0,
                other.view().right,
                self.view().n,
                self.view().m,
            ),
            r is Ok ==> r->Ok_0 < self.view().m,
    {
        proof {
            use_type_invariant(self);
            use_type_invariant(other);
        }
        if self.n != other.n || self.w != other.w || self.m != other.m {
            return Err(Error::ComparisonError("ciphertexts have different parameters".to_string()));
        }
        match &self.left {
            None => Err(Error::ComparisonError("no left part in this ciphertext".to_string())),
            Some(l) => Ok(CipherText::compare_parts(l, &other.right, self.n, self.w, self.m)),
        }
    }

    /// Compare a left part with a right part, walking every block whatever the outcome.
    fn compare_parts(
        left: &LeftCipherText,
        right: &RightCipherText,
        n: usize,
        w: u16,
        m: u8,
    ) -> (r: u8)
        requires
            valid_params(n as nat, w as nat, m),
            left_wf(left.view(), n as nat, w as nat),
            right.wf(n as nat, w as nat, m),
        ensures
            r == compare_code(left.view(), right.view(), n as nat, m),
            r < m,
    {
        let ghost s = Seq::new(n as nat, |k: int| block_result(left.view(), right.view(), k, m));
        let mut result: u8 = 0;
        let mut k: usize = 0;
        while k < n
            invariant
                valid_params(n as nat, w as nat, m),
                left_wf(left.view(), n as nat, w as nat),
                right.wf(n as nat, w as nat, m),
                s == Seq::new(n as nat, |k: int| block_result(left.view(), right.view(), k, m)),
                k <= n,
                result == first_nonzero(s.take(k as int)),
                result < m,
            decreases n - k,
        {
            proof {
                assert(left.f@[k as int]@ == left.view().f[k as int]);
                assert(right.values@[k as int]@ == right.view().values[k as int]);
            }
            let px = left.px[k];
            let v = right.values[k][px as usize];
            let h = match CMACAES128HF::hash(m, &left.f[k], &right.nonces[k]) {
                Ok(h) => h,
                Err(_) => 0,
            };
            proof {
                assert(left.f@[k as int]@ == left.view().f[k as int]);
                assert(right.values@[k as int]@ == right.view().values[k as int]);
            }
            let res: u8 = (v + m - h) % m;
            assert(res == block_result(left.view(), right.view(), k as int, m));
            assert(s.take(k as int + 1).drop_last() =~= s.take(k as int));
            if res != 0 && result == 0 {
                result = res;
            }
            k = k + 1;
        }
        assert(s.take(n as int) =~= s);
        result
    }
}

impl Serializable for CipherText {
    open spec fn valid(&self) -> bool {
        view_wf(self.view())
    }

    open spec fn encoded_by(&self, bytes: Seq<u8>) -> bool {
        ct_layout(self.view(), bytes)
    }

    open spec fn encodable(&self) -> bool {
        ct_fits(self.view())
    }

    open spec fn parsable(bytes: Seq<u8>, n: nat, w: nat, m: u8) -> bool {
        ct_parse(n, w, m, bytes) is Some
    }

    open spec fn parses_to(bytes: Seq<u8>, n: nat, w: nat, m: u8, v: CipherText) -> bool {
        &&& v.view().n == n
        &&& v.view().w == w
        &&& v.view().m == m
        &&& view_wf(v.view())
        &&& Some(parsed_of(v.view())) == ct_parse(n, w, m, bytes)
    }

    fn to_vec(&self) -> (r: Result<Vec<u8>, Error>) {
        proof {
            use_type_invariant(self);
        }
        let mut out: Vec<u8> = Vec::new();
        let ghost mut off: int = 1;
        match &self.left {
            Some(l) => {
                let lb = l.to_vec(self.n, self.w);
                if lb.len() > 65535 {
                    return Err(Error::RangeError("left part too long to encode".to_string()));
                }
                let ll: usize = lb.len();
                out.push(1u8);
                out.push((ll / 256) as u8);
                out.push((ll % 256) as u8);
                append(&mut out, &lb);
                proof {
                    off = 3 + ll;
                    assert(out@.subrange(1, 3) =~= be16(ll as nat));
                    assert(out@.subrange(3, 3 + ll as int) =~= lb@);
                }
            },
            None => {
                out.push(0u8);
            },
        }
        let ghost head = out@;
        let rb = match self.right.to_vec(self.n, self.w, self.m) {
            Ok(v) => v,
            Err(e) => {
                return Err(e);
            },
        };
        let rl: usize = rb.len();
        out.push((rl / 256) as u8);
        out.push((rl % 256) as u8);
        append(&mut out, &rb);
        proof {
            assert(out@ == head + be16(rl as nat) + rb@);
            assert(out@.subrange(off, off + 2) =~= be16(rl as nat));
            assert(out@.subrange(off + 2, out@.len() as int) =~= rb@);
            if self.view().left is Some {
                assert(out@.subrange(1, 3) =~= head.subrange(1, 3));
                assert(out@.subrange(3, off) =~= head.subrange(3, off));
            }
        }
        Ok(out)
    }

    fn from_slice(bytes: &[u8], n: usize, w: u16, m: u8) -> (r: Result<CipherText, Error>) {
        if !(1 <= n && n <= 65536 && 2 <= w && (m == 2 || m == 3)) {
            return Err(Error::ParseError("invalid block count, block width or arity".to_string()));
        }
        if bytes.len() == 0 {
            return Err(Error::ParseError("end of data while reading the type byte".to_string()));
        }
        let t = bytes[0];
        let mut off: usize = 1;
        let left: Option<LeftCipherText> = if t == 0 {
            None
        } else if t == 1 {
            if bytes.len() < 3 {
                return Err(Error::ParseError("end of data while reading the left part's length".to_string()));
            }
            let ll: usize = (bytes[1] as usize) * 256 + bytes[2] as usize;
            if bytes.len() - 3 < ll {
                return Err(Error::ParseError("end of data while reading the left part".to_string()));
            }
            let lb = copy_range(bytes, 3, 3 + ll);
            match LeftCipherText::from_slice(lb.as_slice(), n, w) {
                Ok(l) => {
                    off = 3 + ll;
                    Some(l)
                },
                Err(e) => {
                    return Err(e);
                },
            }
        } else {
            return Err(Error::ParseError("unknown type byte".to_string()));
        };
        let ghost lv = opt_left_view(left);
        if bytes.len() - off < 2 {
            return Err(Error::ParseError("end of data while reading the right part's length".to_string()));
        }
        let rl: usize = (bytes[off] as usize) * 256 + bytes[off + 1] as usize;
        if rl != bytes.len() - off - 2 {
            return Err(Error::ParseError("right part's length does not match the data".to_string()));
        }
        let rb = copy_range(bytes, off + 2, bytes.len());
        let right = match RightCipherText::from_slice(rb.as_slice(), n, w, m) {
            Ok(r) => r,
            Err(e) => {
                return Err(e);
            },
        };
        let ct = CipherText { n, w, m, left, right };
        proof {
            assert(ct.view().left == lv);
        }
        Ok(ct)
    }
}

/// Both ciphertexts have the same parameters.
pub open spec fn same_params(a: CipherTextView, b: CipherTextView) -> bool {
    a.n == b.n && a.w == b.w && a.m == b.m
}

/// The meaning of a comparison result under the ordering comparator.
pub open spec fn code_ordering(c: u8) -> Ordering {
    if c == 0 {
        Ordering::Equal
    } else if c == 1 {
        Ordering::Less
    } else {
        Ordering::Greater
    }
}

/// The opposite ordering.
pub open spec fn reversed(o: Ordering) -> Ordering {
    match o {
        Ordering::Less => Ordering::Greater,
        Ordering::Equal => Ordering::Equal,
        Ordering::Greater => Ordering::Less,
    }
}

/// `a == b` on ciphertexts: the comparison through whichever operand has a left part (the
/// first one if both have) is 0. Two right-only ciphertexts, or ciphertexts with different
/// parameters, cannot be compared and are not equal.
pub open spec fn ct_eq(a: CipherTextView, b: CipherTextView) -> bool {
    if !same_params(a, b) {
        false
    } else if a.left is Some {
        compare_code(a.left->0, b.right, a.n, a.m) == 0
    } else if b.left is Some {
        compare_code(b.left->0, a.right, b.n, b.m) == 0
    } else {
        false
    }
}

/// `a.partial_cmp(b)` on ciphertexts: under the ordering comparator, the comparison through
/// whichever operand has a left part, reversed when it is `b`'s. Under the equality comparator
/// only equality is known. `None` when no comparison can be made.
pub open spec fn ct_partial_cmp(a: CipherTextView, b: CipherTextView) -> Option<Ordering> {
    if !same_params(a, b) || a.m != 3 {
        if ct_eq(a, b) {
            Some(Ordering::Equal)
        } else {
            None
        }
    } else if a.left is Some {
        Some(code_ordering(compare_code(a.left->0, b.right, a.n, a.m)))
    } else if b.left is Some {
        Some(reversed(code_ordering(compare_code(b.left->0, a.right, b.n, b.m))))
    } else {
        None
    }
}

impl CipherText {
    /// The equality of two ciphertexts, as `==` gives it.
    pub fn ct_eq(&self, other: &CipherText) -> (r: bool)
        ensures
            r == ct_eq(self.view(), other.view()),
    {
        proof {
            use_type_invariant(self);
            use_type_invariant(other);
        }
        if self.n != other.n || self.w != other.w || self.m != other.m {
            false
        } else if self.has_left() {
            match self.compare(other) {
                Ok(c) => c == 0,
                Err(_) => false,
            }
        } else if other.has_left() {
            match other.compare(self) {
                Ok(c) => c == 0,
                Err(_) => false,
            }
        } else {
            false
        }
    }

    /// The ordering of two ciphertexts, as `partial_cmp` gives it.
    pub fn ct_partial_cmp(&self, other: &CipherText) -> (r: Option<Ordering>)
        ensures
            r == ct_partial_cmp(self.view(), other.view()),
    {
        proof {
            use_type_invariant(self);
            use_type_invariant(other);
        }
        if self.n != other.n || self.w != other.w || self.m != 3 || other.m != 3 {
            if self.ct_eq(other) {
                Some(Ordering::Equal)
            } else {
                None
            }
        } else if self.has_left() {
            match self.compare(other) {
                Ok(c) => match OrderingCMP::invert(c) {
                    Ok(o) => Some(o),
                    Err(_) => None,
                },
                Err(_) => None,
            }
        } else if other.has_left() {
            match other.compare(self) {
                Ok(c) => match OrderingCMP::invert(c) {
                    Ok(Ordering::Less) => Some(Ordering::Greater),
                    Ok(Ordering::Greater) => Some(Ordering::Less),
                    Ok(Ordering::Equal) => Some(Ordering::Equal),
                    Err(_) => None,
                },
                Err(_) => None,
            }
        } else {
            None
        }
    }
}

impl PartialEq for CipherText {
    fn eq(&self, other: &CipherText) -> (r: bool) {
        self.ct_eq(other)
    }
}

impl vstd::std_specs::cmp::PartialEqSpecImpl for CipherText {
    open spec fn obeys_eq_spec() -> bool {
        true
    }

    open spec fn eq_spec(&self, other: &CipherText) -> bool {
        ct_eq(self.view(), other.view())
    }
}

impl PartialOrd for CipherText {
    fn partial_cmp(&self, other: &CipherText) -> (r: Option<Ordering>) {
        self.ct_partial_cmp(other)
    }
}

impl vstd::std_specs::cmp::PartialOrdSpecImpl for CipherText {
    open spec fn obeys_partial_cmp_spec() -> bool {
        true
    }

    open spec fn partial_cmp_spec(&self, other: &CipherText) -> Option<Ordering> {
        ct_partial_cmp(self.view(), other.view())
    }
}

} // verus!
