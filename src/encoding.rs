//! The wire format's building blocks: the prefix code of the packed values, the packing of bits
//! into bytes, and the decoding of packed values.

use vstd::prelude::*;

use crate::bitlist::{bit_at, bits_of, bytes_for};

verus! {

/// The code of one value: under arity 2 one bit; under arity 3 the prefix code
/// 0 → "0", 1 → "10", 2 → "11".
pub open spec fn sym(m: u8, v: u8) -> Seq<bool> {
    if m == 2 {
        seq![v != 0]
    } else if v == 0 {
        seq![false]
    } else if v == 1 {
        seq![true, false]
    } else {
        seq![true, true]
    }
}

/// The codes of a sequence of values, concatenated.
pub open spec fn enc_values(vals: Seq<u8>, m: u8) -> Seq<bool>
    decreases vals.len(),
{
    if vals.len() == 0 {
        Seq::empty()
    } else {
        enc_values(vals.drop_last(), m) + sym(m, vals.last())
    }
}

/// The rows, concatenated in block-major order.
pub open spec fn flatten(rows: Seq<Seq<u8>>) -> Seq<u8>
    decreases rows.len(),
{
    if rows.len() == 0 {
        Seq::empty()
    } else {
        flatten(rows.drop_last()) + rows.last()
    }
}

/// `bytes` holds exactly `bits`, followed by zero bits up to the byte boundary.
pub open spec fn is_packing(bytes: Seq<u8>, bits: Seq<bool>) -> bool {
    &&& bytes.len() == bytes_for(bits.len())
    &&& forall|i: int| 0 <= i < bits.len() ==> #[trigger] bit_at(bytes, i) == bits[i]
    &&& forall|i: int| bits.len() <= i < 8 * bytes.len() ==> !#[trigger] bit_at(bytes, i)
}

/// Decode one value at `pos`: the value and the number of bits it took, or `None` when the
/// bits run out.
pub open spec fn decode_sym(bits: Seq<bool>, pos: nat, m: u8) -> Option<(u8, nat)> {
    if pos >= bits.len() {
        None
    } else if m == 2 {
        Some((if bits[pos as int] { 1u8 } else { 0u8 }, 1))
    } else if !bits[pos as int] {
        Some((0u8, 1))
    } else if pos + 1 >= bits.len() {
        None
    } else if !bits[pos + 1int] {
        Some((1u8, 2))
    } else {
        Some((2u8, 2))
    }
}

/// Decode `count` values starting at `pos`: the values and the position after them.
pub open spec fn decode(bits: Seq<bool>, pos: nat, count: nat, m: u8) -> Option<(Seq<u8>, nat)>
    decreases count,
{
    if count == 0 {
        Some((Seq::empty(), pos))
    } else {
        match decode_sym(bits, pos, m) {
            None => None,
            Some((v, l)) => match decode(bits, pos + l, (count - 1) as nat, m) {
                None => None,
                Some((rest, p)) => Some((seq![v] + rest, p)),
            },
        }
    }
}

/// The `count` values packed in `bytes`, when they decode and nothing but the padding bits of
/// the last byte follows them (whatever those bits are).
pub open spec fn parse_values(bytes: Seq<u8>, count: nat, m: u8) -> Option<Seq<u8>> {
    match decode(bits_of(bytes), 0, count, m) {
        None => None,
        Some((vals, pos)) => if bytes_for(pos) == bytes.len() {
            Some(vals)
        } else {
            None
        },
    }
}

/// `prefix` followed by what `d` decoded, if anything was.
pub open spec fn join(prefix: Seq<u8>, d: Option<(Seq<u8>, nat)>) -> Option<(Seq<u8>, nat)> {
    match d {
        None => None,
        Some((s, p)) => Some((prefix + s, p)),
    }
}

pub proof fn lemma_enc_values_append(a: Seq<u8>, b: Seq<u8>, m: u8)
    ensures
        enc_values(a + b, m) == enc_values(a, m) + enc_values(b, m),
    decreases b.len(),
{
    if b.len() == 0 {
        assert(a + b =~= a);
        assert(enc_values(a, m) + enc_values(b, m) =~= enc_values(a, m));
    } else {
        lemma_enc_values_append(a, b.drop_last(), m);
        assert((a + b).drop_last() =~= a + b.drop_last());
        assert(enc_values(a + b, m) =~= enc_values(a, m) + enc_values(b, m));
    }
}

pub proof fn lemma_flatten_append(a: Seq<Seq<u8>>, b: Seq<Seq<u8>>)
    ensures
        flatten(a + b) == flatten(a) + flatten(b),
    decreases b.len(),
{
    if b.len() == 0 {
        assert(a + b =~= a);
        assert(flatten(a) + flatten(b) =~= flatten(a));
    } else {
        lemma_flatten_append(a, b.drop_last());
        assert((a + b).drop_last() =~= a + b.drop_last());
        assert(flatten(a + b) =~= flatten(a) + flatten(b));
    }
}

/// The rows split at `k`: those before it, row `k`, and those after it.
pub proof fn lemma_flatten_split(rows: Seq<Seq<u8>>, k: int)
    requires
        0 <= k < rows.len(),
    ensures
        flatten(rows) == flatten(rows.take(k)) + rows[k] + flatten(rows.skip(k + 1)),
{
    assert(rows =~= rows.take(k + 1) + rows.skip(k + 1));
    lemma_flatten_append(rows.take(k + 1), rows.skip(k + 1));
    assert(rows.take(k + 1).drop_last() =~= rows.take(k));
}

/// Values are decoded from the bits that encode them.
pub proof fn lemma_decode_enc(bits: Seq<bool>, pos: nat, vals: Seq<u8>, m: u8)
    requires
        m == 2 || m == 3,
        forall|i: int| 0 <= i < vals.len() ==> #[trigger] vals[i] < m,
        pos + enc_values(vals, m).len() <= bits.len(),
        bits.subrange(pos as int, pos + enc_values(vals, m).len() as int) == enc_values(vals, m),
    ensures
        decode(bits, pos, vals.len(), m) == Some((vals, pos + enc_values(vals, m).len())),
    decreases vals.len(),
{
    if vals.len() == 0 {
        assert(vals =~= Seq::<u8>::empty());
    } else {
        let v = vals[0];
        let rest = vals.drop_first();
        assert(vals =~= seq![v] + rest);
        lemma_enc_values_append(seq![v], rest, m);
        assert(seq![v].drop_last() =~= Seq::<u8>::empty());
        assert(seq![v].last() == v);
        assert(enc_values(Seq::<u8>::empty(), m) == Seq::<bool>::empty());
        assert(enc_values(seq![v], m) =~= sym(m, v));
        let s = sym(m, v);
        let e = enc_values(vals, m);
        assert(e == s + enc_values(rest, m));
        assert forall|i: int| 0 <= i < s.len() implies bits[pos + i] == #[trigger] s[i] by {
            assert(bits.subrange(pos as int, pos + e.len() as int)[i] == e[i]);
        }
        assert(bits[pos as int] == s[0]);
        if s.len() == 2 {
            assert(bits[pos + 1int] == s[1]);
        }
        assert(decode_sym(bits, pos, m) == Some((v, s.len())));
        assert forall|i: int| 0 <= i < rest.len() implies #[trigger] rest[i] < m by {
            assert(rest[i] == vals[i + 1]);
        }
        assert(bits.subrange((pos + s.len()) as int, (pos + s.len() + enc_values(rest, m).len()) as int)
            =~= enc_values(rest, m)) by {
            assert forall|i: int| 0 <= i < enc_values(rest, m).len() implies bits.subrange(
                (pos + s.len()) as int,
                (pos + s.len() + enc_values(rest, m).len()) as int,
            )[i] == enc_values(rest, m)[i] by {
                assert(bits.subrange(pos as int, pos + e.len() as int)[s.len() + i] == e[s.len() + i]);
            }
        }
        lemma_decode_enc(bits, pos + s.len(), rest, m);
    }
}

/// Packed values are parsed back from their packing.
pub proof fn lemma_parse_packed(bytes: Seq<u8>, vals: Seq<u8>, m: u8)
    requires
        m == 2 || m == 3,
        forall|i: int| 0 <= i < vals.len() ==> #[trigger] vals[i] < m,
        is_packing(bytes, enc_values(vals, m)),
    ensures
        parse_values(bytes, vals.len(), m) == Some(vals),
{
    let e = enc_values(vals, m);
    let bits = bits_of(bytes);
    assert(bits.subrange(0, e.len() as int) =~= e);
    lemma_decode_enc(bits, 0, vals, m);
}

/// Under arity 2 every value takes one bit.
pub proof fn lemma_enc_binary_len(vals: Seq<u8>)
    ensures
        enc_values(vals, 2).len() == vals.len(),
    decreases vals.len(),
{
    if vals.len() > 0 {
        lemma_enc_binary_len(vals.drop_last());
    }
}

/// Under arity 2, decoding `count` values takes exactly `count` bits.
pub proof fn lemma_decode_binary_pos(bits: Seq<bool>, pos: nat, count: nat)
    ensures
        decode(bits, pos, count, 2) is Some ==> (decode(bits, pos, count, 2)->0).1 == pos + count,
    decreases count,
{
    if count > 0 {
        lemma_decode_binary_pos(bits, pos + 1, (count - 1) as nat);
    }
}

/// Rows of equal length are determined by their concatenation.
pub proof fn lemma_flatten_injective(a: Seq<Seq<u8>>, b: Seq<Seq<u8>>, w: nat)
    requires
        a.len() == b.len(),
        forall|k: int| 0 <= k < a.len() ==> (#[trigger] a[k]).len() == w,
        forall|k: int| 0 <= k < b.len() ==> (#[trigger] b[k]).len() == w,
        flatten(a) == flatten(b),
    ensures
        a == b,
    decreases a.len(),
{
    if a.len() > 0 {
        lemma_flatten_len(a.drop_last(), w);
        lemma_flatten_len(b.drop_last(), w);
        let fa = flatten(a.drop_last());
        let fb = flatten(b.drop_last());
        assert(fa =~= flatten(a).take(fa.len() as int));
        assert(fb =~= flatten(b).take(fb.len() as int));
        assert(a.last() =~= flatten(a).skip(fa.len() as int));
        assert(b.last() =~= flatten(b).skip(fb.len() as int));
        lemma_flatten_injective(a.drop_last(), b.drop_last(), w);
        assert(a =~= b.drop_last().push(b.last()));
        assert(b =~= b.drop_last().push(b.last()));
    } else {
        assert(a =~= b);
    }
}

pub proof fn lemma_flatten_len(a: Seq<Seq<u8>>, w: nat)
    requires
        forall|k: int| 0 <= k < a.len() ==> (#[trigger] a[k]).len() == w,
    ensures
        flatten(a).len() == a.len() * w,
    decreases a.len(),
{
    if a.len() > 0 {
        lemma_flatten_len(a.drop_last(), w);
        assert(a.len() * w == (a.len() - 1) * w + w) by (nonlinear_arith);
    }
}

} // verus!
