//! What holds of the scheme as a whole, proved from the contracts of its parts.

use std::cmp::Ordering;
use vstd::prelude::*;

use crate::bitlist::{bit_at, bits_of, bytes_for};
use crate::cipher::{valid_blocks, Cipher};
use crate::ciphertext::{
    Serializable, left_layout, left_wf, right_layout,
    be16_value, block_nonce, block_result, compare_code, ct_eq, ct_layout, ct_parse,
    ct_partial_cmp, first_nonzero, left_len, left_of, left_parse, parsed_of, px_at, right_parse,
    right_row, right_rows, view_wf, CipherText, CipherTextView, LeftView, RightView,
};
use crate::cmp::{cmp_code, is_arity};
use crate::encoding::{
    enc_values, flatten, is_packing, lemma_decode_binary_pos, lemma_enc_binary_len, lemma_flatten_injective,
    lemma_flatten_len, lemma_parse_packed,
};
use crate::hash::hf;
use crate::kbkdf::kdf_output;
use crate::plaintext::{digits, lemma_power_positive, power};
use crate::prf::prf_of;
use crate::prp::RandShufflePRP;

verus! {

proof fn lemma_unmask(m: u8, c: int, h: int)
    requires
        m == 2 || m == 3,
        0 <= c < m,
        0 <= h < m,
    ensures
        ((((c + h) % (m as int)) + m as int - h) % (m as int)) == c,
{
    if m == 2 {
        assert(((((c + h) % 2) + 2 - h) % 2) == c) by (nonlinear_arith)
            requires
                0 <= c < 2,
                0 <= h < 2,
        ;
    } else {
        assert(((((c + h) % 3) + 3 - h) % 3) == c) by (nonlinear_arith)
            requires
                0 <= c < 3,
                0 <= h < 3,
        ;
    }
}

/// Comparing the left part of an encryption of the blocks `x` with the right part of an
/// encryption of the blocks `y`, both under the same key, gives the comparator's code of the
/// first block in which they differ (0 when none does).
pub proof fn lemma_compare_blocks(
    c: Cipher,
    x: Seq<u16>,
    y: Seq<u16>,
    l: LeftView,
    nonce_base: Seq<u8>,
    values: Seq<Seq<u8>>,
)
    requires
        c.wf(),
        valid_blocks(x, c.blocks(), c.width()),
        valid_blocks(y, c.blocks(), c.width()),
        l == left_of(c.prf_key(), c.perm(), x),
        values == right_rows(c.prf_key(), c.inv(), y, c.width(), c.arity(), nonce_base),
    ensures
        compare_code(l, RightView { nonce_base, values }, c.blocks(), c.arity())
            == first_nonzero(Seq::new(c.blocks(), |k: int| cmp_code(c.arity(), x[k] as int, y[k] as int))),
{
    let r = RightView { nonce_base, values };
    let m = c.arity();
    let s1 = Seq::new(c.blocks(), |k: int| block_result(l, r, k, m));
    let s2 = Seq::new(c.blocks(), |k: int| cmp_code(m, x[k] as int, y[k] as int));
    assert forall|k: int| 0 <= k < c.blocks() implies s1[k] == s2[k] by {
        let p = c.perm()[x[k] as int];
        let nonce = block_nonce(nonce_base, k as nat);
        let h = hf(m, prf_of(c.prf_key(), p), nonce);
        assert(c.inv()[p as int] == x[k]);
        assert((p as int) < c.width());
        assert(l.px[k] == p);
        assert(l.f[k] == prf_of(c.prf_key(), p));
        assert((p as int) as u16 == p);
        let cc = cmp_code(m, x[k] as int, y[k] as int);
        assert(values[k] == right_row(c.prf_key(), c.inv(), y[k], c.width(), m, nonce));
        assert(values[k][p as int] == (((cc as int) + (h as int)) % (m as int)) as u8);
        assert((h as int) < m);
        assert((cc as int) < m);
        lemma_unmask(m, cc as int, h as int);
    }
    assert(s1 =~= s2);
}

proof fn lemma_digits_split(x: nat, w: nat, n: nat)
    requires
        w >= 2,
        n >= 1,
    ensures
        digits(x, w, n).drop_last() == digits(x / w, w, (n - 1) as nat),
        digits(x, w, n).last() == (x % w) as u16,
{
    let d = digits(x, w, n);
    let e = digits(x / w, w, (n - 1) as nat);
    assert forall|j: int| 0 <= j < n - 1 implies d[j] == e[j] by {
        let k = (n - 2 - j) as nat;
        assert((n - 1 - j) as nat == k + 1);
        assert(power(w, k + 1) == w * power(w, k));
        lemma_power_positive(w, k);
        vstd::arithmetic::div_mod::lemma_div_denominator(x as int, w as int, power(w, k) as int);
    }
    assert(d.drop_last() =~= e);
    assert(power(w, 0) == 1);
    assert((n - 1 - (n - 1)) as nat == 0);
    assert(x / 1 == x);
    assert(d[n - 1] == ((x / power(w, 0)) % w) as u16);
}

/// The blocks of two integers, most significant first, first differ where the integers' order
/// is decided: the comparator's code of that block is the code of the integers.
pub proof fn lemma_digits_compare(m: u8, a: nat, b: nat, w: nat, n: nat)
    requires
        is_arity(m),
        2 <= w <= 65535,
        a < power(w, n),
        b < power(w, n),
    ensures
        first_nonzero(Seq::new(n, |k: int| cmp_code(m, digits(a, w, n)[k] as int, digits(b, w, n)[k] as int)))
            == cmp_code(m, a as int, b as int),
    decreases n,
{
    let s = Seq::new(n, |k: int| cmp_code(m, digits(a, w, n)[k] as int, digits(b, w, n)[k] as int));
    if n == 0 {
        assert(power(w, 0) == 1);
    } else {
        let n1 = (n - 1) as nat;
        lemma_digits_split(a, w, n);
        lemma_digits_split(b, w, n);
        lemma_power_positive(w, n1);
        assert(power(w, n) == w * power(w, n1));
        assert(a / w < power(w, n1)) by (nonlinear_arith)
            requires
                a < w * power(w, n1),
                w >= 2,
        ;
        assert(b / w < power(w, n1)) by (nonlinear_arith)
            requires
                b < w * power(w, n1),
                w >= 2,
        ;
        lemma_digits_compare(m, a / w, b / w, w, n1);
        let s1 = Seq::new(n1, |k: int| cmp_code(m, digits(a / w, w, n1)[k] as int, digits(b / w, w, n1)[k] as int));
        assert forall|k: int| 0 <= k < n1 implies s.drop_last()[k] == s1[k] by {
            assert(digits(a, w, n)[k] == digits(a, w, n).drop_last()[k]);
            assert(digits(b, w, n)[k] == digits(b, w, n).drop_last()[k]);
        }
        assert(s.drop_last() =~= s1);
        assert(a == w * (a / w) + a % w) by (nonlinear_arith)
            requires
                w >= 2,
        ;
        assert(b == w * (b / w) + b % w) by (nonlinear_arith)
            requires
                w >= 2,
        ;
        assert(a % w < w && b % w < w) by (nonlinear_arith)
            requires
                w >= 2,
        ;
        assert(((a % w) as u16) as int == a % w);
        assert(((b % w) as u16) as int == b % w);
        if a / w < b / w {
            assert(w * (a / w) + w <= w * (b / w)) by (nonlinear_arith)
                requires
                    a / w + 1 <= b / w,
                    w >= 2,
            ;
        } else if a / w > b / w {
            assert(w * (b / w) + w <= w * (a / w)) by (nonlinear_arith)
                requires
                    b / w + 1 <= a / w,
                    w >= 2,
            ;
        }
    }
}

/// Comparing the encryption of `a` (with its left part) with an encryption of `b` (full or
/// right-only) under the same key gives 0 exactly when `a == b`; under the ordering comparator
/// it gives 1 exactly when `a < b` and 2 exactly when `a > b`; under the equality comparator it
/// gives 1 exactly when they differ.
pub proof fn lemma_compare_encrypted(
    c1: Cipher,
    c2: Cipher,
    a: nat,
    b: nat,
    ca: CipherText,
    cb: CipherText,
    b_full: bool,
)
    requires
        c1.wf(),
        c2.same_key(c1),
        a < power(c1.width(), c1.blocks()),
        b < power(c1.width(), c1.blocks()),
        ca.encrypts(c1, digits(a, c1.width(), c1.blocks()), true),
        cb.encrypts(c2, digits(b, c1.width(), c1.blocks()), b_full),
    ensures
        compare_code(ca.view().left->0, cb.view().right, c1.blocks(), c1.arity()) == cmp_code(
            c1.arity(),
            a as int,
            b as int,
        ),
        compare_code(ca.view().left->0, cb.view().right, c1.blocks(), c1.arity()) == 0 <==> a == b,
        c1.arity() == 3 ==> (compare_code(ca.view().left->0, cb.view().right, c1.blocks(), c1.arity()) == 1 <==> a < b),
        c1.arity() == 3 ==> (compare_code(ca.view().left->0, cb.view().right, c1.blocks(), c1.arity()) == 2 <==> a > b),
        c1.arity() == 2 ==> (compare_code(ca.view().left->0, cb.view().right, c1.blocks(), c1.arity()) == 1 <==> a != b),
{
    let w = c1.width();
    let n = c1.blocks();
    let x = digits(a, w, n);
    let y = digits(b, w, n);
    lemma_digits_valid(a, w, n);
    lemma_digits_valid(b, w, n);
    lemma_compare_blocks(c1, x, y, ca.view().left->0, cb.view().right.nonce_base, cb.view().right.values);
    assert(cb.view().right == RightView { nonce_base: cb.view().right.nonce_base, values: cb.view().right.values });
    lemma_digits_compare(c1.arity(), a, b, w, n);
}

proof fn lemma_digits_valid(x: nat, w: nat, n: nat)
    requires
        2 <= w <= 65535,
    ensures
        valid_blocks(digits(x, w, n), n, w),
{
    assert forall|k: int| 0 <= k < n implies (#[trigger] digits(x, w, n)[k] as nat) < w by {
        let v = (x / power(w, (n - 1 - k) as nat)) % w;
        assert(v < w) by (nonlinear_arith)
            requires
                w >= 2,
                v == (x / power(w, (n - 1 - k) as nat)) % w,
        ;
    }
}

/// Any value encrypted twice under the same key compares equal to itself.
pub proof fn lemma_compare_same(c1: Cipher, c2: Cipher, a: nat, ca: CipherText, cb: CipherText, b_full: bool)
    requires
        c1.wf(),
        c2.same_key(c1),
        a < power(c1.width(), c1.blocks()),
        ca.encrypts(c1, digits(a, c1.width(), c1.blocks()), true),
        cb.encrypts(c2, digits(a, c1.width(), c1.blocks()), b_full),
    ensures
        compare_code(ca.view().left->0, cb.view().right, c1.blocks(), c1.arity()) == 0,
{
    lemma_compare_encrypted(c1, c2, a, a, ca, cb, b_full);
}

/// Two encryptions of the same blocks under ciphers with the same parameters, the same PRF key
/// and the same permutation tables (for instance one cipher before and after an encryption)
/// have the same left part.
pub proof fn lemma_left_deterministic(c1: Cipher, c2: Cipher, x: Seq<u16>, ca: CipherText, cb: CipherText)
    requires
        c2.same_key(c1),
        ca.encrypts(c1, x, true),
        cb.encrypts(c2, x, true),
    ensures
        ca.view().left == cb.view().left,
{
}

/// The left part of an encryption is a function of the root key and the plaintext alone: two
/// ciphers created from the same 32-byte key with the same parameters give the same left part
/// for the same blocks, whatever nonces they draw.
pub proof fn lemma_left_from_key(
    key: Seq<u8>,
    c1: Cipher,
    c2: Cipher,
    x: Seq<u16>,
    ca: CipherText,
    cb: CipherText,
)
    requires
        c1.derived_from(key),
        c2.derived_from(key),
        c1.width() == c2.width(),
        ca.encrypts(c1, x, true),
        cb.encrypts(c2, x, true),
    ensures
        ca.view().left == cb.view().left,
{
}

/// The permutation is a bijection on `[0, W)`, and the inverse table is its inverse.
pub proof fn lemma_prp_bijection(prp: RandShufflePRP)
    requires
        prp.wf(),
    ensures
        forall|i: int|
            0 <= i < prp.width() ==> (#[trigger] prp.perm()[i] as int) < prp.width()
                && prp.inv()[prp.perm()[i] as int] as int == i,
        forall|j: int|
            0 <= j < prp.width() ==> (#[trigger] prp.inv()[j] as int) < prp.width()
                && prp.perm()[prp.inv()[j] as int] as int == j,
{
}

/// Key derivation is deterministic: the same root key, identifier and length give the same
/// bytes.
pub proof fn lemma_kdf_deterministic(k1: Seq<u8>, k2: Seq<u8>, id1: Seq<u8>, id2: Seq<u8>, len: nat)
    requires
        k1 == k2,
        id1 == id2,
    ensures
        kdf_output(k1, id1, len) == kdf_output(k2, id2, len),
{
}

proof fn lemma_values_below(rows: Seq<Seq<u8>>, n: nat, w: nat, m: u8)
    requires
        rows.len() == n,
        forall|k: int| 0 <= k < n ==> (#[trigger] rows[k]).len() == w,
        forall|k: int, i: int| 0 <= k < n && 0 <= i < w ==> #[trigger] rows[k][i] < m,
    ensures
        forall|i: int| 0 <= i < flatten(rows).len() ==> #[trigger] flatten(rows)[i] < m,
    decreases n,
{
    if n > 0 {
        let front = rows.drop_last();
        lemma_values_below(front, (n - 1) as nat, w, m);
        lemma_flatten_len(front, w);
        assert forall|i: int| 0 <= i < flatten(rows).len() implies #[trigger] flatten(rows)[i] < m by {
            if i >= flatten(front).len() {
                assert(flatten(rows)[i] == rows[n - 1][i - flatten(front).len()]);
            } else {
                assert(flatten(rows)[i] == flatten(front)[i]);
            }
        }
    }
}

/// The encoding of a well-formed ciphertext parses back to what the ciphertext holds.
pub proof fn lemma_layout_parses(c: CipherTextView, b: Seq<u8>)
    requires
        view_wf(c),
        ct_layout(c, b),
    ensures
        ct_parse(c.n, c.w, c.m, b) == Some(parsed_of(c)),
{
    let off: int = match c.left {
        Some(_) => 3 + left_len(c.n, c.w) as int,
        None => 1,
    };
    match c.left {
        Some(l) => {
            let ll = left_len(c.n, c.w);
            let lb = b.subrange(3, 3 + ll as int);
            assert(be16_value(b, 1) == ll) by {
                assert(b[1] == b.subrange(1, 3)[0]);
                assert(b[2] == b.subrange(1, 3)[1]);
            }
            assert forall|k: int| 0 <= k < c.n implies #[trigger] px_at(lb, c.n, c.w, k) < c.w by {
                assert(px_at(lb, c.n, c.w, k) == l.px[k] as int);
            }
            let pl = left_parse(lb, c.n, c.w)->0;
            assert forall|k: int| 0 <= k < c.n implies #[trigger] pl.f[k] == l.f[k] by {
                assert forall|t: int| 0 <= t < 16 implies pl.f[k][t] == l.f[k][t] by {
                    assert(lb[16 * k + t] == l.f[k][t]);
                }
                assert(pl.f[k] =~= l.f[k]);
            }
            assert(pl.f =~= l.f);
            assert forall|k: int| 0 <= k < c.n implies #[trigger] pl.px[k] == l.px[k] by {
                assert(px_at(lb, c.n, c.w, k) == l.px[k] as int);
            }
            assert(pl.px =~= l.px);
        },
        None => {},
    }
    let rb = b.subrange(off + 2, b.len() as int);
    assert(be16_value(b, off) == b.len() - off - 2) by {
        assert(b[off] == b.subrange(off, off + 2)[0]);
        assert(b[off + 1] == b.subrange(off, off + 2)[1]);
    }
    let vals = flatten(c.right.values);
    lemma_flatten_len(c.right.values, c.w);
    lemma_values_below(c.right.values, c.n, c.w, c.m);
    lemma_parse_packed(rb.skip(16), vals, c.m);
    assert(right_parse(rb, c.n, c.w, c.m) == Some((c.right.nonce_base, vals)));
}

/// Two well-formed ciphertexts with the same parameters that parse to the same thing are the
/// same ciphertext.
pub proof fn lemma_parsed_injective(c1: CipherTextView, c2: CipherTextView)
    requires
        view_wf(c1),
        view_wf(c2),
        c1.n == c2.n,
        c1.w == c2.w,
        c1.m == c2.m,
        parsed_of(c1) == parsed_of(c2),
    ensures
        c1 == c2,
{
    lemma_flatten_injective(c1.right.values, c2.right.values, c1.w);
}

/// Serialising a well-formed ciphertext and parsing the bytes with the same parameters gives
/// back the same ciphertext.
pub proof fn lemma_round_trip(a: CipherTextView, b: Seq<u8>, r: CipherTextView)
    requires
        view_wf(a),
        ct_layout(a, b),
        view_wf(r),
        r.n == a.n,
        r.w == a.w,
        r.m == a.m,
        Some(parsed_of(r)) == ct_parse(a.n, a.w, a.m, b),
    ensures
        r == a,
{
    lemma_layout_parses(a, b);
    lemma_parsed_injective(r, a);
}


/// How two integers are ordered.
pub open spec fn int_ordering(x: nat, y: nat) -> Ordering {
    if x == y {
        Ordering::Equal
    } else if x < y {
        Ordering::Less
    } else {
        Ordering::Greater
    }
}

/// A right-only ciphertext of `b` and a full ciphertext of `a` under the same key are equal,
/// from either side, exactly when `a == b`; under the ordering comparator they are ordered, from
/// either side, as `a` and `b` are.
pub proof fn lemma_right_only_compares(
    c1: Cipher,
    c2: Cipher,
    a: nat,
    b: nat,
    ca: CipherText,
    cb: CipherText,
)
    requires
        c1.wf(),
        c2.same_key(c1),
        a < power(c1.width(), c1.blocks()),
        b < power(c1.width(), c1.blocks()),
        ca.encrypts(c1, digits(a, c1.width(), c1.blocks()), true),
        cb.encrypts(c2, digits(b, c1.width(), c1.blocks()), false),
    ensures
        ct_eq(ca.view(), cb.view()) <==> a == b,
        ct_eq(cb.view(), ca.view()) <==> a == b,
        c1.arity() == 3 ==> ct_partial_cmp(ca.view(), cb.view()) == Some(int_ordering(a, b)),
        c1.arity() == 3 ==> ct_partial_cmp(cb.view(), ca.view()) == Some(int_ordering(b, a)),
{
    lemma_compare_encrypted(c1, c2, a, b, ca, cb, false);
}

/// A full ciphertext does not parse under parameters whose left part has another length.
pub proof fn lemma_other_params_rejected_full(c: CipherTextView, b: Seq<u8>, n2: nat, w2: nat)
    requires
        view_wf(c),
        ct_layout(c, b),
        c.left is Some,
        left_len(n2, w2) != left_len(c.n, c.w),
    ensures
        ct_parse(n2, w2, c.m, b) is None,
{
    assert(b[1] == b.subrange(1, 3)[0]);
    assert(b[2] == b.subrange(1, 3)[1]);
    assert(be16_value(b, 1) == left_len(c.n, c.w));
}

/// Under the equality comparator, a right-only ciphertext does not parse under parameters whose
/// packed values take another number of bytes.
pub proof fn lemma_other_params_rejected_right(c: CipherTextView, b: Seq<u8>, n2: nat, w2: nat)
    requires
        view_wf(c),
        ct_layout(c, b),
        c.left is None,
        c.m == 2,
        bytes_for(n2 * w2) != bytes_for(c.n * c.w),
    ensures
        ct_parse(n2, w2, c.m, b) is None,
{
    assert(b[1] == b.subrange(1, 3)[0]);
    assert(b[2] == b.subrange(1, 3)[1]);
    let rb = b.subrange(3, b.len() as int);
    let packed = rb.skip(16);
    lemma_flatten_len(c.right.values, c.w);
    lemma_enc_binary_len(flatten(c.right.values));
    lemma_decode_binary_pos(bits_of(packed), 0, n2 * w2);
    assert(packed.len() == bytes_for(c.n * c.w));
}

proof fn lemma_first_nonzero_zeros(s: Seq<u8>)
    requires
        forall|k: int| 0 <= k < s.len() ==> #[trigger] s[k] == 0,
    ensures
        first_nonzero(s) == 0,
    decreases s.len(),
{
    if s.len() > 0 {
        lemma_first_nonzero_zeros(s.drop_last());
    }
}

/// A full ciphertext is equal to itself under `==`.
pub proof fn lemma_self_equal(c: Cipher, x: Seq<u16>, ca: CipherText)
    requires
        c.wf(),
        valid_blocks(x, c.blocks(), c.width()),
        ca.encrypts(c, x, true),
    ensures
        ct_eq(ca.view(), ca.view()),
{
    lemma_compare_blocks(c, x, x, ca.view().left->0, ca.view().right.nonce_base, ca.view().right.values);
    let s = Seq::new(c.blocks(), |k: int| cmp_code(c.arity(), x[k] as int, x[k] as int));
    lemma_first_nonzero_zeros(s);
    assert(ca.view().right == RightView { nonce_base: ca.view().right.nonce_base, values: ca.view().right.values });
}

/// A ciphertext serialised to `b` and parsed back from `b` with its own parameters is the same
/// ciphertext: same parts, and so the same comparisons.
pub proof fn lemma_ciphertext_round_trip(a: CipherText, b: Seq<u8>, r: CipherText)
    requires
        a.valid(),
        a.encoded_by(b),
        CipherText::parses_to(b, a.view().n, a.view().w, a.view().m, r),
    ensures
        r.view() == a.view(),
        ct_eq(r.view(), a.view()) == ct_eq(a.view(), a.view()),
        ct_partial_cmp(r.view(), a.view()) == ct_partial_cmp(a.view(), a.view()),
{
    lemma_round_trip(a.view(), b, r.view());
}

proof fn lemma_byte_from_bits(x: u8, y: u8)
    requires
        ((x >> 0u8) & 1u8 == 1u8) == ((y >> 0u8) & 1u8 == 1u8),
        ((x >> 1u8) & 1u8 == 1u8) == ((y >> 1u8) & 1u8 == 1u8),
        ((x >> 2u8) & 1u8 == 1u8) == ((y >> 2u8) & 1u8 == 1u8),
        ((x >> 3u8) & 1u8 == 1u8) == ((y >> 3u8) & 1u8 == 1u8),
        ((x >> 4u8) & 1u8 == 1u8) == ((y >> 4u8) & 1u8 == 1u8),
        ((x >> 5u8) & 1u8 == 1u8) == ((y >> 5u8) & 1u8 == 1u8),
        ((x >> 6u8) & 1u8 == 1u8) == ((y >> 6u8) & 1u8 == 1u8),
        ((x >> 7u8) & 1u8 == 1u8) == ((y >> 7u8) & 1u8 == 1u8),
    ensures
        x == y,
{
    assert(x == y) by (bit_vector)
        requires
            ((x >> 0u8) & 1u8 == 1u8) == ((y >> 0u8) & 1u8 == 1u8),
            ((x >> 1u8) & 1u8 == 1u8) == ((y >> 1u8) & 1u8 == 1u8),
            ((x >> 2u8) & 1u8 == 1u8) == ((y >> 2u8) & 1u8 == 1u8),
            ((x >> 3u8) & 1u8 == 1u8) == ((y >> 3u8) & 1u8 == 1u8),
            ((x >> 4u8) & 1u8 == 1u8) == ((y >> 4u8) & 1u8 == 1u8),
            ((x >> 5u8) & 1u8 == 1u8) == ((y >> 5u8) & 1u8 == 1u8),
            ((x >> 6u8) & 1u8 == 1u8) == ((y >> 6u8) & 1u8 == 1u8),
            ((x >> 7u8) & 1u8 == 1u8) == ((y >> 7u8) & 1u8 == 1u8),
    ;
}

proof fn lemma_same_bit(b1: Seq<u8>, b2: Seq<u8>, bits: Seq<bool>, i: int)
    requires
        is_packing(b1, bits),
        is_packing(b2, bits),
        0 <= i < 8 * b1.len(),
    ensures
        bit_at(b1, i) == bit_at(b2, i),
{
    if i < bits.len() {
        assert(bit_at(b1, i) == bits[i]);
        assert(bit_at(b2, i) == bits[i]);
    } else {
        assert(!bit_at(b1, i));
        assert(!bit_at(b2, i));
    }
}

/// A sequence of bits has one packing.
pub proof fn lemma_packing_unique(b1: Seq<u8>, b2: Seq<u8>, bits: Seq<bool>)
    requires
        is_packing(b1, bits),
        is_packing(b2, bits),
    ensures
        b1 == b2,
{
    assert forall|k: int| 0 <= k < b1.len() implies b1[k] == b2[k] by {
        lemma_same_bit(b1, b2, bits, 8 * k + 0);
        lemma_same_bit(b1, b2, bits, 8 * k + 1);
        lemma_same_bit(b1, b2, bits, 8 * k + 2);
        lemma_same_bit(b1, b2, bits, 8 * k + 3);
        lemma_same_bit(b1, b2, bits, 8 * k + 4);
        lemma_same_bit(b1, b2, bits, 8 * k + 5);
        lemma_same_bit(b1, b2, bits, 8 * k + 6);
        lemma_same_bit(b1, b2, bits, 8 * k + 7);
        lemma_byte_from_bits(b1[k], b2[k]);
    }
    assert(b1 =~= b2);
}

/// A left part has one encoding.
pub proof fn lemma_left_layout_unique(l: LeftView, b1: Seq<u8>, b2: Seq<u8>, n: nat, w: nat)
    requires
        left_wf(l, n, w),
        left_layout(l, b1, n, w),
        left_layout(l, b2, n, w),
    ensures
        b1 == b2,
{
    assert forall|i: int| 0 <= i < b1.len() implies b1[i] == b2[i] by {
        if i < 16 * n {
            let k = i / 16;
            let t = i % 16;
            assert(16 * k + t == i);
            assert(b1[16 * k + t] == l.f[k][t]);
            assert(b2[16 * k + t] == l.f[k][t]);
        } else if w <= 256 {
            let k = i - 16 * n;
            assert(px_at(b1, n, w, k) == l.px[k] as int);
            assert(px_at(b2, n, w, k) == l.px[k] as int);
        } else {
            let k = (i - 16 * n) / 2;
            let o = 16 * n + 2 * k;
            assert(px_at(b1, n, w, k) == l.px[k] as int);
            assert(px_at(b2, n, w, k) == l.px[k] as int);
            let (x1, y1, x2, y2) = (b1[o] as int, b1[o + 1] as int, b2[o] as int, b2[o + 1] as int);
            assert(x1 == x2 && y1 == y2) by (nonlinear_arith)
                requires
                    x1 * 256 + y1 == x2 * 256 + y2,
                    0 <= x1 < 256,
                    0 <= y1 < 256,
                    0 <= x2 < 256,
                    0 <= y2 < 256,
            ;
        }
    }
    assert(b1 =~= b2);
}

/// A right part has one encoding.
pub proof fn lemma_right_layout_unique(r: RightView, b1: Seq<u8>, b2: Seq<u8>, m: u8)
    requires
        right_layout(r, b1, m),
        right_layout(r, b2, m),
    ensures
        b1 == b2,
{
    lemma_packing_unique(b1.skip(16), b2.skip(16), enc_values(flatten(r.values), m));
    assert(b1 =~= b1.take(16) + b1.skip(16));
    assert(b2 =~= b2.take(16) + b2.skip(16));
}

/// A ciphertext has one encoding: whatever bytes satisfy its layout are the same bytes.
pub proof fn lemma_layout_unique(c: CipherTextView, b1: Seq<u8>, b2: Seq<u8>)
    requires
        view_wf(c),
        ct_layout(c, b1),
        ct_layout(c, b2),
    ensures
        b1 == b2,
{
    let off: int = match c.left {
        Some(_) => 3 + left_len(c.n, c.w) as int,
        None => 1,
    };
    let r1 = b1.subrange(off + 2, b1.len() as int);
    let r2 = b2.subrange(off + 2, b2.len() as int);
    lemma_right_layout_unique(c.right, r1, r2, c.m);
    assert(b1.len() == b2.len());
    match c.left {
        Some(l) => {
            let ll = left_len(c.n, c.w) as int;
            lemma_left_layout_unique(l, b1.subrange(3, 3 + ll), b2.subrange(3, 3 + ll), c.n, c.w);
        },
        None => {},
    }
    assert forall|i: int| 0 <= i < b1.len() implies b1[i] == b2[i] by {
        if i == 0 {
        } else if c.left is Some && i < 3 {
            assert(b1[i] == b1.subrange(1, 3)[i - 1]);
            assert(b2[i] == b2.subrange(1, 3)[i - 1]);
        } else if c.left is Some && i < off {
            assert(b1[i] == b1.subrange(3, off)[i - 3]);
            assert(b2[i] == b2.subrange(3, off)[i - 3]);
        } else if i < off + 2 {
            assert(b1[i] == b1.subrange(off, off + 2)[i - off]);
            assert(b2[i] == b2.subrange(off, off + 2)[i - off]);
        } else {
            assert(b1[i] == r1[i - off - 2]);
            assert(b2[i] == r2[i - off - 2]);
        }
    }
    assert(b1 =~= b2);
}

/// Re-serialising a ciphertext parsed from the encoding of `a` gives the same bytes: if `a`
/// encodes to `b`, the parsed `r` encodes to `b` too, and only to `b`.
pub proof fn lemma_reencode_same_bytes(a: CipherText, b: Seq<u8>, r: CipherText, b2: Seq<u8>)
    requires
        a.valid(),
        a.encoded_by(b),
        CipherText::parses_to(b, a.view().n, a.view().w, a.view().m, r),
        r.encoded_by(b2),
    ensures
        b2 == b,
        r.encodable() == a.encodable(),
{
    lemma_ciphertext_round_trip(a, b, r);
    lemma_layout_unique(a.view(), b, b2);
}

} // verus!
