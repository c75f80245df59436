//! The order in which a node visits the slots of the table.
//!
//! Each node walks the table from its own offset in steps of its own skip.
//! With a prime number of slots and a skip that is not a multiple of it, the
//! walk passes every slot exactly once before it repeats.
use vstd::arithmetic::div_mod::*;
use vstd::prelude::*;

use crate::primes::{is_prime, lemma_inverse_mod_prime};

verus! {

/// Where a node's walk starts and how far each step goes.
#[derive(Clone, Copy, Debug, PartialEq, Eq, Structural)]
pub struct Stride {
    pub offset: usize,
    pub skip: usize,
}

impl Stride {
    /// The walk stays inside a table of `m` slots and never stands still.
    pub open spec fn fits(self, m: nat) -> bool {
        self.offset < m && 1 <= self.skip < m
    }

    /// The slot visited at step `k` of the walk over `m` slots.
    pub open spec fn spec_slot(self, m: nat, k: nat) -> nat {
        visit(self.offset as nat, self.skip as nat, m, k)
    }

    /// The stride of a node whose two digests are `offset_digest` and
    /// `skip_digest`, over `m` slots.
    pub open spec fn spec_from_digests(
        offset_digest: usize,
        skip_digest: usize,
        m: usize,
    ) -> Stride {
        Stride {
            offset: offset_of(offset_digest as int, m as int) as usize,
            skip: skip_of(skip_digest as int, m as int) as usize,
        }
    }

    /// Derives a node's stride from its two digests: the offset is the first
    /// reduced modulo `m`, the skip is the second reduced modulo `m - 1`,
    /// plus one, so that it is never zero.
    pub fn from_digests(offset_digest: usize, skip_digest: usize, m: usize) -> (stride: Stride)
        requires
            m >= 2,
        ensures
            stride == Self::spec_from_digests(offset_digest, skip_digest, m),
            stride.fits(m as nat),
    {
        Stride { offset: offset_digest % m, skip: skip_digest % (m - 1) + 1 }
    }

    /// The slot visited at step `k` of the walk over `m` slots.
    pub fn slot(&self, m: usize, k: usize) -> (c: usize)
        requires
            m >= 1,
        ensures
            c == self.spec_slot(m as nat, k as nat),
            c < m,
    {
        assert(0 <= (k as int) * (self.skip as int) <= u64::MAX * u64::MAX) by (nonlinear_arith)
            requires
                0 <= k <= u64::MAX,
                0 <= self.skip <= u64::MAX,
        ;
        let wide: u128 = self.offset as u128 + (k as u128) * (self.skip as u128);
        (wide % (m as u128)) as usize
    }
}

/// Where the walk of a node starts: its first digest, reduced modulo the
/// number of slots.
pub open spec fn offset_of(digest: int, m: int) -> int {
    digest % m
}

/// How far the walk of a node steps: its second digest, reduced modulo one
/// less than the number of slots, and one more, so that it is never zero.
pub open spec fn skip_of(digest: int, m: int) -> int {
    digest % (m - 1) + 1
}

/// The slot reached after `k` steps of `skip` from `offset`, around a table
/// of `m` slots.
pub open spec fn visit(offset: nat, skip: nat, m: nat, k: nat) -> nat {
    (offset + k * skip) % m
}

/// Every slot is visited: for a prime `m`, the walk reaches `slot` at some
/// step below `m`.
pub proof fn lemma_visit_reaches(offset: nat, skip: nat, m: nat, slot: nat) -> (k: nat)
    requires
        is_prime(m),
        offset < m,
        0 < skip < m,
        slot < m,
    ensures
        k < m,
        visit(offset, skip, m, k) == slot,
{
    let a = lemma_inverse_mod_prime(skip, m);
    let d: nat = (slot + m - offset) as nat;
    let k: nat = ((d * a) % m) as nat;
    let mi = m as int;
    lemma_mod_bound((d * a) as int, mi);
    // k * skip is congruent to d
    lemma_mul_mod_noop_left((d * a) as int, skip as int, mi);
    assert((d * a) * skip == d * (a * skip)) by (nonlinear_arith);
    lemma_mul_mod_noop_right(d as int, (a * skip) as int, mi);
    assert(((k * skip) as int) % mi == (d as int) % mi);
    // offset + k * skip is congruent to offset + d, which is slot + m
    lemma_add_mod_noop_right(offset as int, (k * skip) as int, mi);
    lemma_add_mod_noop_right(offset as int, d as int, mi);
    lemma_mod_add_multiples_vanish(slot as int, mi);
    lemma_small_mod(slot, m);
    k
}

/// No slot is visited twice: for a prime `m`, two steps below `m` that
/// reach the same slot are the same step.
pub proof fn lemma_visit_injective(offset: nat, skip: nat, m: nat, j: nat, k: nat)
    requires
        is_prime(m),
        offset < m,
        0 < skip < m,
        j < m,
        k < m,
        visit(offset, skip, m, j) == visit(offset, skip, m, k),
    ensures
        j == k,
{
    let a = lemma_inverse_mod_prime(skip, m);
    let mi = m as int;
    lemma_step_recovered(offset, skip, m, a, j);
    lemma_step_recovered(offset, skip, m, a, k);
}

/// The step is determined by the slot it reaches: with `a` the inverse of
/// `skip`, step `k` is `(visit(k) + m - offset) * a` reduced modulo `m`.
proof fn lemma_step_recovered(offset: nat, skip: nat, m: nat, a: nat, k: nat)
    requires
        m >= 2,
        offset < m,
        k < m,
        (a * skip) % m == 1,
    ensures
        k == ((visit(offset, skip, m, k) + m - offset) * a) % (m as int),
{
    let mi = m as int;
    let c = visit(offset, skip, m, k);
    let e: int = c + m - offset;
    // e is congruent to k * skip
    lemma_fundamental_div_mod((offset + k * skip) as int, mi);
    let q = ((offset + k * skip) as int) / mi;
    assert(e == mi * (1 - q) + k * skip) by (nonlinear_arith)
        requires
            offset + k * skip == mi * q + c,
            e == c + mi - offset,
    ;
    lemma_mod_multiples_vanish(1 - q, (k * skip) as int, mi);
    assert(e % mi == ((k * skip) as int) % mi);
    // so e * a is congruent to k * skip * a, which is congruent to k
    lemma_mul_mod_noop_left(e, a as int, mi);
    lemma_mul_mod_noop_left((k * skip) as int, a as int, mi);
    assert((k * skip) * a == k * (a * skip)) by (nonlinear_arith);
    lemma_mul_mod_noop_right(k as int, (a * skip) as int, mi);
    lemma_small_mod(k, m);
}

} // verus!
