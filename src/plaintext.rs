//! Plaintexts: unsigned integers split into `n` blocks of base `w`, most significant first.

use vstd::prelude::*;

use crate::error::Error;

verus! {

/// `b` to the power `e`.
pub open spec fn power(b: nat, e: nat) -> nat
    decreases e,
{
    if e == 0 {
        1
    } else {
        b * power(b, (e - 1) as nat)
    }
}

/// The `n` base-`w` digits of `x`, most significant first: digit `j` is `(x / w^(n-1-j)) mod w`.
pub open spec fn digits(x: nat, w: nat, n: nat) -> Seq<u16> {
    Seq::new(n, |j: int| ((x / power(w, (n - 1 - j) as nat)) % w) as u16)
}

/// A plaintext ready to be encrypted: one value per block, most significant block first.
#[derive(Debug)]
pub struct PlainText(pub Vec<u16>);

pub proof fn lemma_power_positive(b: nat, e: nat)
    requires
        b >= 1,
    ensures
        power(b, e) >= 1,
    decreases e,
{
    if e > 0 {
        lemma_power_positive(b, (e - 1) as nat);
        assert(b * power(b, (e - 1) as nat) >= 1) by (nonlinear_arith)
            requires
                b >= 1,
                power(b, (e - 1) as nat) >= 1,
        ;
    }
}

impl PlainText {
    /// Create a plaintext from its block values, most significant first.
    ///
    /// The values are checked against the block width when the plaintext is encrypted.
    pub fn new(a: Vec<u16>) -> (r: PlainText)
        ensures
            r.0@ == a@,
    {
        PlainText(a)
    }

    /// The block values, most significant first.
    pub open spec fn view(&self) -> Seq<u16> {
        self.0@
    }

    /// The `n`th block of the plaintext.
    pub fn block(&self, n: usize) -> (r: Result<u16, Error>)
        ensures
            n < self.0@.len() <==> r is Ok,
            r is Ok ==> r->Ok_0 == self.0@[n as int],
            r is Err ==> r->Err_0 is RangeError,
    {
        if n < self.0.len() {
            Ok(self.0[n])
        } else {
            Err(Error::RangeError("block index beyond the plaintext's block count".to_string()))
        }
    }

    /// Split `value` into `n` blocks of base `w`, most significant first.
    ///
    /// Fails with a range error exactly when `value` is not less than `w^n`.
    pub fn from_uint(n: usize, w: u16, value: u128) -> (r: Result<PlainText, Error>)
        requires
            w >= 2,
        ensures
            r is Ok <==> (value as nat) < power(w as nat, n as nat),
            r is Ok ==> r->Ok_0@ == digits(value as nat, w as nat, n as nat),
            r is Err ==> r->Err_0 is RangeError,
    {
        let width: u128 = w as u128;
        let mut u: u128 = value;
        let mut p: Vec<u16> = Vec::new();
        let mut k: usize = 0;
        while k < n
            invariant
                k <= n,
                p@.len() == k,
                forall|j: int| 0 <= j < k ==> p@[j] == 0,
            decreases n - k,
        {
            p.push(0);
            k = k + 1;
        }
        let ghost d = digits(value as nat, w as nat, n as nat);
        let mut i: usize = 0;
        assert(power(w as nat, 0) == 1);
        while i < n
            invariant
                i <= n,
                width == w as u128,
                w >= 2,
                p@.len() == n,
                u as nat == (value as nat) / power(w as nat, i as nat),
                d == digits(value as nat, w as nat, n as nat),
                forall|j: int| n - i <= j < n ==> p@[j] == d[j],
            decreases n - i,
        {
            let idx: usize = n - 1 - i;
            let digit: u16 = (u % width) as u16;
            proof {
                assert((n - 1 - idx) as nat == i as nat);
                lemma_power_positive(w as nat, i as nat);
                assert(d[idx as int] == ((value as nat / power(w as nat, i as nat)) % (w as nat)) as u16);
            }
            p.set(idx, digit);
            proof {
                let pw = power(w as nat, i as nat);
                assert(power(w as nat, (i + 1) as nat) == (w as nat) * pw);
                vstd::arithmetic::div_mod::lemma_div_denominator(value as int, pw as int, w as int);
                assert((w as nat) * pw == pw * (w as nat)) by (nonlinear_arith);
            }
            u = u / width;
            i = i + 1;
        }
        proof {
            assert(p@ =~= d);
            let pw = power(w as nat, n as nat);
            lemma_power_positive(w as nat, n as nat);
            if (value as nat) < pw {
                assert((value as nat) / pw == 0) by (nonlinear_arith)
                    requires
                        (value as nat) < pw,
                ;
            } else {
                assert((value as nat) / pw >= 1) by (nonlinear_arith)
                    requires
                        (value as nat) >= pw,
                        pw >= 1,
                ;
            }
        }
        if u == 0 {
            Ok(PlainText(p))
        } else {
            Err(Error::RangeError("value too large for the plaintext's blocks".to_string()))
        }
    }

    /// The plaintext of a boolean: `true` as 1 and `false` as 0.
    pub fn from_bool(n: usize, w: u16, value: bool) -> (r: Result<PlainText, Error>)
        requires
            w >= 2,
        ensures
            r is Ok <==> n >= 1 || !value,
            r is Ok ==> r->Ok_0@ == digits(if value { 1 } else { 0 }, w as nat, n as nat),
            r is Err ==> r->Err_0 is RangeError,
    {
        proof {
            lemma_power_positive(w as nat, n as nat);
            if n >= 1 {
                lemma_power_positive(w as nat, (n - 1) as nat);
                assert(power(w as nat, n as nat) == (w as nat) * power(w as nat, (n - 1) as nat));
                assert((w as nat) * power(w as nat, (n - 1) as nat) >= 2) by (nonlinear_arith)
                    requires
                        w >= 2,
                        power(w as nat, (n - 1) as nat) >= 1,
                ;
            }
        }
        PlainText::from_uint(n, w, if value { 1 } else { 0 })
    }
}

} // verus!
