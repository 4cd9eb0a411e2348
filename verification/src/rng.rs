//! The injected random source.
//!
//! Every operation that needs chance takes a `Prng` by exclusive reference:
//! the caller owns the source, and two sources in the same state yield the
//! same stream, which is what the determinism contracts of this crate lean
//! on.  The generator is a linear-congruential map on a 32-bit state; a
//! 64-bit draw takes two steps.  Fresh entropy for seeding comes from the
//! `rand` crate, behind a trusted wrapper.

use vstd::prelude::*;

verus! {

pub const LCG_MUL: u64 = 1664525;

pub const LCG_INC: u64 = 1013904223;

pub const LCG_MOD: u64 = 0x100000000;

/// One step of the linear-congruential state map.
pub open spec fn lcg_step(s: int) -> int {
    (LCG_MUL * s + LCG_INC) % (LCG_MOD as int)
}

/// The state after one 64-bit draw, which takes two steps.
pub open spec fn lcg_step2(s: int) -> int {
    lcg_step(lcg_step(s))
}

/// The 64-bit value produced by one draw from state `s`.
pub open spec fn lcg_draw(s: int) -> int {
    lcg_step(s) * (LCG_MOD as int) + lcg_step(lcg_step(s))
}

/// The state after `k` draws.
pub open spec fn lcg_iter2(s: int, k: nat) -> int
    decreases k,
{
    if k == 0 {
        s
    } else {
        lcg_step2(lcg_iter2(s, (k - 1) as nat))
    }
}

/// Iterating `a + b` draws is iterating `a`, then `b` more.
pub proof fn lemma_lcg_iter2_add(s: int, a: nat, b: nat)
    ensures
        lcg_iter2(s, a + b) == lcg_iter2(lcg_iter2(s, a), b),
    decreases b,
{
    if b > 0 {
        lemma_lcg_iter2_add(s, a, (b - 1) as nat);
    }
}

/// The `j`-th draw in `[-1, 1]` of the stream that starts at state `s`.
pub open spec fn signed_unit_at(s: int, j: nat) -> int {
    lcg_draw(lcg_iter2(s, j)) % (2 * crate::fixed::SCALE + 1) - crate::fixed::SCALE
}

/// The first `n` draws in `[-1, 1]` of the stream that starts at state `s`.
pub open spec fn random_genes(s: int, n: nat) -> Seq<i64> {
    Seq::new(n, |j: int| signed_unit_at(s, j as nat) as i64)
}

/// Splitting a stream of draws after the first `a`.
pub proof fn lemma_random_genes_add(s: int, a: nat, b: nat)
    ensures
        random_genes(s, a + b) == random_genes(s, a) + random_genes(lcg_iter2(s, a), b),
{
    assert forall|j: int| 0 <= j < a + b implies random_genes(s, a + b)[j] == (random_genes(
        s,
        a,
    ) + random_genes(lcg_iter2(s, a), b))[j] by {
        if j >= a {
            lemma_lcg_iter2_add(s, a, (j - a) as nat);
        }
    }
    assert(random_genes(s, a + b) =~= random_genes(s, a) + random_genes(lcg_iter2(s, a), b));
}

/// Relies on rand::random: an arbitrary u64 from the thread-local entropy
/// source.  Nothing is promised of its value.
#[verifier::external_body]
fn entropy_u64() -> u64 {
    rand::random::<u64>()
}

/// A deterministic random source with an explicit state.
pub struct Prng {
    pub state: u64,
}

impl Prng {
    /// The state always stays below the modulus.
    pub open spec fn wf(self) -> bool {
        self.state < LCG_MOD
    }

    pub fn new(seed: u64) -> (r: Prng)
        ensures
            r.wf(),
            r.state == seed % LCG_MOD,
    {
        Prng { state: seed % LCG_MOD }
    }

    /// Seeds from process entropy; only well-formedness is promised.
    pub fn from_entropy() -> (r: Prng)
        ensures
            r.wf(),
    {
        Prng::new(entropy_u64())
    }

    fn next_word(&mut self) -> (r: u64)
        requires
            old(self).wf(),
        ensures
            final(self).wf(),
            final(self).state == lcg_step(old(self).state as int),
            r == final(self).state,
    {
        let s = LCG_MUL * self.state + LCG_INC;
        self.state = s % LCG_MOD;
        self.state
    }

    /// Draws the next value in `[0, n)`.
    pub fn next_below(&mut self, n: u64) -> (r: u64)
        requires
            old(self).wf(),
            n >= 1,
        ensures
            final(self).wf(),
            final(self).state == lcg_step2(old(self).state as int),
            r == lcg_draw(old(self).state as int) % (n as int),
            r < n,
    {
        let h = self.next_word();
        let l = self.next_word();
        let v = h * LCG_MOD + l;
        v % n
    }

    /// The unit draw of the random-source contract: a fixed-point value in
    /// `[0, 1)`.
    pub fn next_unit(&mut self) -> (r: i64)
        requires
            old(self).wf(),
        ensures
            final(self).wf(),
            final(self).state == lcg_step2(old(self).state as int),
            r == lcg_draw(old(self).state as int) % (crate::fixed::SCALE as int),
            0 <= r < crate::fixed::SCALE,
    {
        self.next_below(crate::fixed::SCALE as u64) as i64
    }

    /// A fixed-point draw in `[-1, 1]`, for fresh network weights.
    pub fn next_signed_unit(&mut self) -> (r: i64)
        requires
            old(self).wf(),
        ensures
            final(self).wf(),
            final(self).state == lcg_step2(old(self).state as int),
            r == lcg_draw(old(self).state as int) % (2 * crate::fixed::SCALE + 1) - crate::fixed::SCALE,
            -crate::fixed::SCALE <= r <= crate::fixed::SCALE,
    {
        let v = self.next_below(2 * (crate::fixed::SCALE as u64) + 1);
        v as i64 - crate::fixed::SCALE
    }
}

} // verus!
