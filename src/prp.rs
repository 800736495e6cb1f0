//! The pseudo-random permutation on `[0, W)`: a shuffle driven by a ChaCha20 generator seeded
//! from a derived subkey, kept together with its inverse.

use vstd::prelude::*;

use crate::error::Error;
use crate::kbkdf::{kdf_output, wipe_bytes, KBKDF};
use crate::rng::{chacha_draw, next_draw, start_draws};

verus! {

/// `p` and `q` are mutually inverse permutations of `[0, w)`.
pub open spec fn inverse_perms(p: Seq<u16>, q: Seq<u16>, w: nat) -> bool {
    &&& p.len() == w
    &&& q.len() == w
    &&& forall|i: int| 0 <= i < w ==> (#[trigger] p[i] as int) < w && q[p[i] as int] as int == i
    &&& forall|j: int| 0 <= j < w ==> (#[trigger] q[j] as int) < w && p[q[j] as int] as int == j
}

/// The identifier under which the shuffle's seed is derived: `"KnuthShufflePRP.rngseed"`.
pub open spec fn prp_seed_id() -> Seq<u8> {
    seq![
        75u8, 110u8, 117u8, 116u8, 104u8, 83u8, 104u8, 117u8, 102u8, 102u8, 108u8, 101u8, 80u8,
        82u8, 80u8, 46u8, 114u8, 110u8, 103u8, 115u8, 101u8, 101u8, 100u8,
    ]
}

/// The table after the first `k` steps of the shuffle seeded with `seed`: starting from the
/// identity on `[0, w)`, step `i` swaps the entries at `i` and at the `i`th draw from `[0, w)`.
pub open spec fn shuffled(seed: Seq<u8>, w: u16, k: nat) -> Seq<u16>
    decreases k,
{
    if k == 0 {
        Seq::new(w as nat, |i: int| i as u16)
    } else {
        let p = shuffled(seed, w, (k - 1) as nat);
        let i = k - 1;
        let j = chacha_draw(seed, w, (k - 1) as nat) as int;
        p.update(i, p[j]).update(j, p[i])
    }
}

/// The permutation of `[0, w)` keyed by the root key `root`: the whole shuffle, seeded with the
/// 32 bytes derived from `root` under `"KnuthShufflePRP.rngseed"`.
pub open spec fn shuffle_of(root: Seq<u8>, w: u16) -> Seq<u16> {
    shuffled(kdf_output(root, prp_seed_id(), 32), w, w as nat)
}

/// A keyed permutation of `[0, W)` with its inverse.
pub trait PseudoRandomPermutation: Sized {
    /// The forward table: entry `x` is the image of `x`.
    spec fn forward(&self) -> Seq<u16>;

    /// The inverse table: entry `y` is the value whose image is `y`.
    spec fn backward(&self) -> Seq<u16>;

    /// The width `W` of the domain.
    spec fn domain(&self) -> nat;

    /// The image of `data`; fails with a range error when `data` is not in `[0, W)`.
    fn value(&self, data: u16) -> (r: Result<u16, Error>)
        requires
            inverse_perms(self.forward(), self.backward(), self.domain()),
        ensures
            (data as nat) < self.domain() <==> r is Ok,
            r is Ok ==> r->Ok_0 == self.forward()[data as int] && (r->Ok_0 as nat) < self.domain(),
            r is Err ==> r->Err_0 is RangeError,
    ;

    /// The value whose image is `data`; fails with a range error when `data` is not in `[0, W)`.
    fn inverse(&self, data: u16) -> (r: Result<u16, Error>)
        requires
            inverse_perms(self.forward(), self.backward(), self.domain()),
        ensures
            (data as nat) < self.domain() <==> r is Ok,
            r is Ok ==> r->Ok_0 == self.backward()[data as int] && (r->Ok_0 as nat) < self.domain(),
            r is Err ==> r->Err_0 is RangeError,
    ;
}

/// Creation of a permutation keyed by a key derivation function.
pub trait PseudoRandomPermutationInit: PseudoRandomPermutation {
    /// The forward table built for width `w` from a derivation function with root key `root`.
    spec fn forward_for(root: Seq<u8>, w: u16) -> Seq<u16>;

    /// Build the permutation of `[0, w)` keyed by `kdf`; its table depends on the root key and
    /// `w` alone.
    fn new<K: KBKDF>(w: u16, kdf: &K) -> (r: Result<Self, Error>)
        ensures
            r is Ok,
            r->Ok_0.forward() == Self::forward_for(kdf.root_key(), w),
            inverse_perms(r->Ok_0.forward(), r->Ok_0.backward(), w as nat),
            r->Ok_0.domain() == w,
    ;
}

/// Relies on zeroize's `Zeroize` for `Vec<u16>`: every entry is overwritten with zero, by writes
/// that the compiler does not optimise away, and the vector is left empty.
#[verifier::external_body]
fn wipe_table(table: &mut Vec<u16>)
    ensures
        final(table)@.len() == 0,
    opens_invariants none
    no_unwind
{
    zeroize::Zeroize::zeroize(table)
}

/// A keyed permutation of `[0, W)` built by shuffling.
pub struct RandShufflePRP {
    /// value -> permuted value
    p: Vec<u16>,
    /// permuted value -> value
    p_1: Vec<u16>,
}

impl RandShufflePRP {
    /// The forward table: `perm()[x]` is the image of `x`.
    pub closed spec fn perm(&self) -> Seq<u16> {
        self.p@
    }

    /// The inverse table: `inv()[y]` is the value whose image is `y`.
    pub closed spec fn inv(&self) -> Seq<u16> {
        self.p_1@
    }

    /// The width `W` of the domain.
    pub closed spec fn width(&self) -> nat {
        self.p@.len()
    }

    /// The two tables are mutually inverse permutations of `[0, W)`.
    pub open spec fn wf(&self) -> bool {
        inverse_perms(self.perm(), self.inv(), self.width())
    }
}

impl PseudoRandomPermutationInit for RandShufflePRP {
    open spec fn forward_for(root: Seq<u8>, w: u16) -> Seq<u16> {
        shuffle_of(root, w)
    }

    /// Build the permutation of `[0, w)` keyed by `kdf`.
    ///
    /// A ChaCha20 generator is seeded with 32 bytes derived under `"KnuthShufflePRP.rngseed"`;
    /// then for each index `i` in turn an index `j` is drawn uniformly from `[0, w)` and the
    /// entries at `i` and `j` are swapped.
    fn new<K: KBKDF>(w: u16, kdf: &K) -> (r: Result<RandShufflePRP, Error>) {
        // "KnuthShufflePRP.rngseed"
        let id: Vec<u8> = vec![
            75u8, 110u8, 117u8, 116u8, 104u8, 83u8, 104u8, 117u8, 102u8, 102u8, 108u8, 101u8, 80u8,
            82u8, 80u8, 46u8, 114u8, 110u8, 103u8, 115u8, 101u8, 101u8, 100u8,
        ];
        assert(id@ =~= prp_seed_id());
        let mut seed = match kdf.derive_key(32, id.as_slice()) {
            Ok(s) => s,
            Err(e) => {
                return Err(e);
            },
        };
        let ghost sd = seed@;
        let mut draws = start_draws(seed.as_slice(), w);
        wipe_bytes(&mut seed);
        let mut p: Vec<u16> = Vec::new();
        let mut p_1: Vec<u16> = Vec::new();
        let mut k: u16 = 0;
        while k < w
            invariant
                k <= w,
                p@.len() == k,
                p_1@.len() == k,
                forall|i: int| 0 <= i < k ==> p@[i] == i && p_1@[i] == i,
            decreases w - k,
        {
            p.push(k);
            p_1.push(k);
            k = k + 1;
        }
        assert(p@ =~= shuffled(sd, w, 0));
        let mut i: u16 = 0;
        while i < w
            invariant
                i <= w,
                inverse_perms(p@, p_1@, w as nat),
                p@ == shuffled(sd, w, i as nat),
                draws.seed() == sd,
                draws.bound() == w,
                draws.drawn() == i,
            decreases w - i,
        {
            let j = next_draw(&mut draws);
            let ghost before = p@;
            let a = p[i as usize];
            let b = p[j as usize];
            p.set(i as usize, b);
            p.set(j as usize, a);
            p_1.set(a as usize, j);
            p_1.set(b as usize, i);
            proof {
                assert forall|x: int| 0 <= x < w implies (#[trigger] p@[x] as int) < w
                    && p_1@[p@[x] as int] as int == x by {
                    if x != i && x != j {
                        assert(p@[x] != a && p@[x] != b);
                    }
                }
                assert forall|y: int| 0 <= y < w implies (#[trigger] p_1@[y] as int) < w
                    && p@[p_1@[y] as int] as int == y by {
                }
                assert(p@ =~= before.update(i as int, before[j as int]).update(j as int, before[i as int]));
            }
            i = i + 1;
        }
        Ok(RandShufflePRP { p, p_1 })
    }
}

impl PseudoRandomPermutation for RandShufflePRP {
    open spec fn forward(&self) -> Seq<u16> {
        self.perm()
    }

    open spec fn backward(&self) -> Seq<u16> {
        self.inv()
    }

    open spec fn domain(&self) -> nat {
        self.width()
    }

    /// The image of `data`; fails with a range error when `data` is not in `[0, W)`.
    fn value(&self, data: u16) -> (r: Result<u16, Error>) {
        if (data as usize) < self.p.len() {
            Ok(self.p[data as usize])
        } else {
            Err(Error::RangeError("value outside the permutation's domain".to_string()))
        }
    }

    /// The value whose image is `data`; fails with a range error when `data` is not in `[0, W)`.
    fn inverse(&self, data: u16) -> (r: Result<u16, Error>) {
        if (data as usize) < self.p_1.len() {
            Ok(self.p_1[data as usize])
        } else {
            Err(Error::RangeError("value outside the permutation's domain".to_string()))
        }
    }
}

impl Drop for RandShufflePRP {
    /// Both tables are wiped when the permutation goes away.
    fn drop(&mut self)
        opens_invariants none
        no_unwind
    {
        wipe_table(&mut self.p);
        wipe_table(&mut self.p_1);
    }
}

} // verus!
