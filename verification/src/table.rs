//! Filling the lookup table.
//!
//! The nodes take turns in the order of their indices, round after round. In
//! its turn a node claims the first slot of its walk that no node has claimed
//! yet. After as many turns as there are slots, every slot has an owner.
use vstd::arithmetic::div_mod::*;
use vstd::prelude::*;

use crate::permutation::{lemma_visit_reaches, Stride};
use crate::primes::is_prime;

verus! {

/// A table under construction: for each slot, the node that has claimed it,
/// if any.
pub type Claims = Seq<Option<nat>>;

/// The first step at or after `k` of the walk whose slot is still free, or
/// the number of slots if there is none.
pub open spec fn first_free(claims: Claims, stride: Stride, k: nat) -> nat
    decreases claims.len() - k,
{
    if k >= claims.len() {
        claims.len()
    } else if claims[stride.spec_slot(claims.len(), k) as int] is None {
        k
    } else {
        first_free(claims, stride, k + 1)
    }
}

/// The claims on a table of `m` slots after the first `turns` turns. Turn
/// number `t`, counted from zero, belongs to node `t % n`.
pub open spec fn claims_after(strides: Seq<Stride>, m: nat, turns: nat) -> Claims
    decreases turns,
{
    if turns == 0 || strides.len() == 0 {
        Seq::new(m, |c: int| None)
    } else {
        let before = claims_after(strides, m, (turns - 1) as nat);
        let node = ((turns - 1) as nat) % strides.len();
        let stride = strides[node as int];
        let step = first_free(before, stride, 0);
        before.update(stride.spec_slot(m, step) as int, Some(node))
    }
}

/// The finished table: the owner of each of the `m` slots once `m` turns
/// have been taken.
pub open spec fn lookup_table(strides: Seq<Stride>, m: nat) -> Seq<nat> {
    Seq::new(m, |c: int| claims_after(strides, m, m)[c].unwrap())
}

/// Every stride walks inside a table of `m` slots.
pub open spec fn strides_fit(strides: Seq<Stride>, m: nat) -> bool {
    forall|i: int| 0 <= i < strides.len() ==> (#[trigger] strides[i]).fits(m)
}

/// How many slots have an owner.
pub open spec fn claimed_count(claims: Claims) -> nat
    decreases claims.len(),
{
    if claims.len() == 0 {
        0
    } else {
        claimed_count(claims.drop_last()) + if claims.last() is Some {
            1nat
        } else {
            0nat
        }
    }
}

proof fn lemma_claimed_count_bound(claims: Claims)
    ensures
        claimed_count(claims) <= claims.len(),
    decreases claims.len(),
{
    if claims.len() > 0 {
        lemma_claimed_count_bound(claims.drop_last());
    }
}

proof fn lemma_none_claimed(m: nat)
    ensures
        claimed_count(Seq::new(m, |c: int| None::<nat>)) == 0,
    decreases m,
{
    if m > 0 {
        lemma_none_claimed((m - 1) as nat);
        assert(Seq::new(m, |c: int| None::<nat>).drop_last() =~= Seq::new(
            (m - 1) as nat,
            |c: int| None::<nat>,
        ));
    }
}

/// Claiming a free slot raises the count by one.
proof fn lemma_claim_counts(claims: Claims, c: int, node: nat)
    requires
        0 <= c < claims.len(),
        claims[c] is None,
    ensures
        claimed_count(claims.update(c, Some(node))) == claimed_count(claims) + 1,
    decreases claims.len(),
{
    let after = claims.update(c, Some(node));
    if c == claims.len() - 1 {
        assert(after.drop_last() =~= claims.drop_last());
    } else {
        lemma_claim_counts(claims.drop_last(), c, node);
        assert(after.drop_last() =~= claims.drop_last().update(c, Some(node)));
    }
}

/// While fewer slots are claimed than there are, one is free.
proof fn lemma_free_slot(claims: Claims) -> (c: int)
    requires
        claimed_count(claims) < claims.len(),
    ensures
        0 <= c < claims.len(),
        claims[c] is None,
    decreases claims.len(),
{
    if claims.last() is None {
        claims.len() - 1
    } else {
        lemma_free_slot(claims.drop_last())
    }
}

/// Once as many slots are claimed as there are, none is free.
proof fn lemma_all_claimed(claims: Claims, c: int)
    requires
        claimed_count(claims) == claims.len(),
        0 <= c < claims.len(),
    ensures
        claims[c] is Some,
    decreases claims.len(),
{
    lemma_claimed_count_bound(claims.drop_last());
    if c < claims.len() - 1 {
        lemma_all_claimed(claims.drop_last(), c);
    }
}

/// The first free step lies at or after the start, and every step between
/// the two has a claimed slot; if it is below the number of slots, its own
/// slot is free.
proof fn lemma_first_free(claims: Claims, stride: Stride, k: nat)
    requires
        k <= claims.len(),
    ensures
        k <= first_free(claims, stride, k) <= claims.len(),
        forall|j: nat|
            k <= j < first_free(claims, stride, k) ==> claims[#[trigger] stride.spec_slot(
                claims.len(),
                j,
            ) as int] is Some,
        first_free(claims, stride, k) < claims.len() ==> claims[stride.spec_slot(
            claims.len(),
            first_free(claims, stride, k),
        ) as int] is None,
    decreases claims.len() - k,
{
    if k < claims.len() && claims[stride.spec_slot(claims.len(), k) as int] is Some {
        lemma_first_free(claims, stride, k + 1);
    }
}

/// A free slot at step `j` bounds the first free step from any start at or
/// before `j`.
proof fn lemma_first_free_le(claims: Claims, stride: Stride, k: nat, j: nat)
    requires
        k <= j < claims.len(),
        claims[stride.spec_slot(claims.len(), j) as int] is None,
    ensures
        first_free(claims, stride, k) <= j,
    decreases j - k,
{
    if k < j && claims[stride.spec_slot(claims.len(), k) as int] is Some {
        lemma_first_free_le(claims, stride, k + 1, j);
    }
}

/// Steps whose slots are all claimed can be passed over: the search gives
/// the same step from `k` as from the start.
proof fn lemma_first_free_skips(claims: Claims, stride: Stride, k: nat)
    requires
        k <= claims.len(),
        forall|j: nat|
            j < k ==> claims[#[trigger] stride.spec_slot(claims.len(), j) as int] is Some,
    ensures
        first_free(claims, stride, 0) == first_free(claims, stride, k),
    decreases k,
{
    if k > 0 {
        lemma_first_free_skips(claims, stride, (k - 1) as nat);
        assert(claims[stride.spec_slot(claims.len(), (k - 1) as nat) as int] is Some);
    }
}

/// On a table with a prime number of slots of which one is free, a walk
/// finds a free slot before it has gone round.
proof fn lemma_walk_finds_free(claims: Claims, stride: Stride)
    requires
        is_prime(claims.len()),
        stride.fits(claims.len()),
        claimed_count(claims) < claims.len(),
    ensures
        first_free(claims, stride, 0) < claims.len(),
{
    let c = lemma_free_slot(claims);
    let j = lemma_visit_reaches(
        stride.offset as nat,
        stride.skip as nat,
        claims.len(),
        c as nat,
    );
    lemma_first_free_le(claims, stride, 0, j);
}

/// How many slots `node` has claimed.
pub open spec fn owned_count(claims: Claims, node: nat) -> nat
    decreases claims.len(),
{
    if claims.len() == 0 {
        0
    } else {
        owned_count(claims.drop_last(), node) + if claims.last() == Some(node) {
            1nat
        } else {
            0nat
        }
    }
}

/// How many slots of a finished table `node` owns.
pub open spec fn slots_of(table: Seq<nat>, node: nat) -> nat {
    owned_count(table.map_values(|owner: nat| Some(owner)), node)
}

/// How many of the first `turns` turns are those of `node`, when `n` nodes
/// take turns in index order.
pub open spec fn turns_of(node: nat, n: nat, turns: nat) -> nat {
    ((turns + n - 1 - node) / (n as int)) as nat
}

/// One more turn is one more turn of the node whose turn it is, and of no
/// other.
proof fn lemma_turns_step(node: nat, n: nat, turns: nat)
    requires
        node < n,
    ensures
        turns_of(node, n, turns + 1) == turns_of(node, n, turns) + if turns % n == node {
            1nat
        } else {
            0nat
        },
{
    let ni = n as int;
    let x: int = turns + n - 1 - node;
    let q = x / ni;
    let r = x % ni;
    lemma_fundamental_div_mod(x, ni);
    lemma_mod_bound(x, ni);
    assert(x == q * ni + r) by (nonlinear_arith)
        requires
            x == ni * q + r,
    ;
    if r == n - 1 {
        assert(x + 1 == (q + 1) * ni + 0) by (nonlinear_arith)
            requires
                x == q * ni + r,
                r == ni - 1,
        ;
        lemma_fundamental_div_mod_converse(x + 1, ni, q + 1, 0);
        assert(turns as int == q * ni + node);
        lemma_fundamental_div_mod_converse(turns as int, ni, q, node as int);
    } else {
        lemma_fundamental_div_mod_converse(x + 1, ni, q, r + 1);
        if r + 1 + node < n {
            assert(turns as int == (q - 1) * ni + (r + 1 + node)) by (nonlinear_arith)
                requires
                    x == q * ni + r,
                    x == turns + ni - 1 - node,
            ;
            lemma_fundamental_div_mod_converse(turns as int, ni, q - 1, r + 1 + node);
        } else {
            assert(turns as int == q * ni + (r + 1 + node - ni));
            lemma_fundamental_div_mod_converse(turns as int, ni, q, r + 1 + node - ni);
        }
    }
}

proof fn lemma_none_owned(m: nat, node: nat)
    ensures
        owned_count(Seq::new(m, |c: int| None::<nat>), node) == 0,
    decreases m,
{
    if m > 0 {
        lemma_none_owned((m - 1) as nat, node);
        assert(Seq::new(m, |c: int| None::<nat>).drop_last() =~= Seq::new(
            (m - 1) as nat,
            |c: int| None::<nat>,
        ));
    }
}

/// Claiming a free slot gives its new owner one slot more and leaves the
/// other nodes what they had.
proof fn lemma_claim_owned(claims: Claims, c: int, owner: nat, node: nat)
    requires
        0 <= c < claims.len(),
        claims[c] is None,
    ensures
        owned_count(claims.update(c, Some(owner)), node) == owned_count(claims, node) + if owner
            == node {
            1nat
        } else {
            0nat
        },
    decreases claims.len(),
{
    let after = claims.update(c, Some(owner));
    if c == claims.len() - 1 {
        assert(after.drop_last() =~= claims.drop_last());
    } else {
        lemma_claim_owned(claims.drop_last(), c, owner, node);
        assert(after.drop_last() =~= claims.drop_last().update(c, Some(owner)));
    }
}

/// After `turns` turns, `turns` slots are claimed, each by one of the
/// nodes, and each node has claimed one slot for each of its turns.
pub proof fn lemma_claims_after(strides: Seq<Stride>, m: nat, turns: nat)
    requires
        is_prime(m),
        strides.len() > 0,
        strides_fit(strides, m),
        turns <= m,
    ensures
        claims_after(strides, m, turns).len() == m,
        claimed_count(claims_after(strides, m, turns)) == turns,
        forall|c: int|
            0 <= c < m ==> (#[trigger] claims_after(strides, m, turns)[c] matches Some(owner)
                ==> owner < strides.len()),
        forall|node: nat|
            node < strides.len() ==> #[trigger] owned_count(
                claims_after(strides, m, turns),
                node,
            ) == turns_of(node, strides.len(), turns),
    decreases turns,
{
    let n = strides.len();
    let claims = claims_after(strides, m, turns);
    if turns == 0 {
        lemma_none_claimed(m);
        assert forall|node: nat| node < n implies #[trigger] owned_count(claims, node) == turns_of(
            node,
            n,
            0,
        ) by {
            lemma_none_owned(m, node);
            lemma_small_mod((n - 1 - node) as nat, n);
            lemma_fundamental_div_mod(n - 1 - node, n as int);
            lemma_basic_div(n - 1 - node, n as int);
        }
    } else {
        let before = claims_after(strides, m, (turns - 1) as nat);
        lemma_claims_after(strides, m, (turns - 1) as nat);
        let owner = ((turns - 1) as nat) % n;
        lemma_mod_bound(turns - 1, n as int);
        let stride = strides[owner as int];
        let step = first_free(before, stride, 0);
        lemma_walk_finds_free(before, stride);
        lemma_first_free(before, stride, 0);
        let c = stride.spec_slot(m, step) as int;
        lemma_mod_bound((stride.offset + step * stride.skip) as int, m as int);
        assert(claims == before.update(c, Some(owner)));
        lemma_claim_counts(before, c, owner);
        assert forall|node: nat| node < n implies #[trigger] owned_count(claims, node) == turns_of(
            node,
            n,
            turns,
        ) by {
            lemma_claim_owned(before, c, owner, node);
            lemma_turns_step(node, n, (turns - 1) as nat);
            assert(owned_count(before, node) == turns_of(node, n, (turns - 1) as nat));
        }
    }
}

/// Slots are shared evenly: in the finished table each node owns one slot
/// for each of its turns among the first `m`, which is `m / n` of them or
/// one more.
pub proof fn lemma_slots_shared_evenly(strides: Seq<Stride>, m: nat, node: nat)
    requires
        is_prime(m),
        strides_fit(strides, m),
        node < strides.len(),
    ensures
        slots_of(lookup_table(strides, m), node) == turns_of(node, strides.len(), m),
        m / strides.len() <= slots_of(lookup_table(strides, m), node) <= m / strides.len() + 1,
{
    let n = strides.len();
    let claims = claims_after(strides, m, m);
    lemma_claims_after(strides, m, m);
    assert(lookup_table(strides, m).map_values(|owner: nat| Some(owner)) =~= claims) by {
        assert forall|c: int| 0 <= c < m implies claims[c] is Some by {
            lemma_all_claimed(claims, c);
        }
    }
    assert(owned_count(claims, node) == turns_of(node, n, m));
    lemma_div_is_ordered(m as int, m + n - 1 - node, n as int);
    lemma_div_is_ordered(m + n - 1 - node, (m + n) as int, n as int);
    lemma_div_plus_one(m as int, n as int);
}

/// The vector of owners says what the claims say, with the number of nodes
/// standing for a free slot.
spec fn mirrors(entry: Seq<usize>, claims: Claims, n: nat) -> bool {
    &&& entry.len() == claims.len()
    &&& forall|c: int|
        0 <= c < entry.len() ==> match #[trigger] claims[c] {
            None => entry[c] == n,
            Some(node) => node < n && entry[c] == node,
        }
}

/// Each node's cursor has only claimed slots behind it.
spec fn cursors_behind(next: Seq<usize>, strides: Seq<Stride>, claims: Claims) -> bool {
    &&& next.len() == strides.len()
    &&& forall|x: int| 0 <= x < next.len() ==> #[trigger] next[x] <= claims.len()
    &&& forall|x: int, k: nat|
        0 <= x < next.len() && k < next[x] ==> claims[#[trigger] strides[x].spec_slot(
            claims.len(),
            k,
        ) as int] is Some
}

/// Fills a table of `m` slots for the nodes whose walks are `strides`, and
/// returns the owner of each slot.
///
/// The nodes take turns in index order, round after round; in its turn a
/// node claims the first free slot of its walk. Each node keeps a cursor into
/// its walk, so that no step is examined twice.
pub fn populate(strides: &Vec<Stride>, m: usize) -> (table: Vec<usize>)
    requires
        strides.len() > 0,
        is_prime(m as nat),
        strides_fit(strides@, m as nat),
    ensures
        table.len() == m,
        forall|c: int| 0 <= c < m ==> table[c] as nat == lookup_table(strides@, m as nat)[c],
        forall|c: int| 0 <= c < m ==> table[c] < strides.len(),
{
    let n: usize = strides.len();
    let mut next: Vec<usize> = vec![0; n];
    let mut entry: Vec<usize> = vec![n; m];
    let mut j: usize = 0;
    proof {
        lemma_small_mod(0, n as nat);
    }
    while j < m
        invariant
            n == strides.len(),
            n > 0,
            is_prime(m as nat),
            strides_fit(strides@, m as nat),
            j <= m,
            (j as nat) % (n as nat) == 0 || j == m,
            mirrors(entry@, claims_after(strides@, m as nat, j as nat), n as nat),
            cursors_behind(next@, strides@, claims_after(strides@, m as nat, j as nat)),
            entry.len() == m,
        decreases m - j,
    {
        let ghost round_start = j;
        let mut i: usize = 0;
        while i < n && j < m
            invariant
                j == round_start + i,
                n == strides.len(),
                n > 0,
                is_prime(m as nat),
                strides_fit(strides@, m as nat),
                j <= m,
                i <= n,
                (j as nat) % (n as nat) == (i as nat) % (n as nat),
                mirrors(entry@, claims_after(strides@, m as nat, j as nat), n as nat),
                cursors_behind(next@, strides@, claims_after(strides@, m as nat, j as nat)),
                entry.len() == m,
            decreases m - j,
        {
            let stride = strides[i];
            let ghost claims = claims_after(strides@, m as nat, j as nat);
            let ghost found = first_free(claims, stride, 0);
            let mut k: usize = next[i];
            proof {
                lemma_claims_after(strides@, m as nat, j as nat);
                lemma_walk_finds_free(claims, stride);
                lemma_first_free(claims, stride, 0);
                lemma_first_free_skips(claims, stride, k as nat);
                lemma_first_free(claims, stride, k as nat);
            }
            let mut c: usize = stride.slot(m, k);
            while entry[c] != n
                invariant
                    m == claims.len(),
                    mirrors(entry@, claims, n as nat),
                    found == first_free(claims, stride, 0),
                    k <= found < m,
                    c == stride.spec_slot(m as nat, k as nat),
                    c < m,
                decreases found - k,
            {
                proof {
                    lemma_first_free(claims, stride, 0);
                }
                k = k + 1;
                c = stride.slot(m, k);
            }
            proof {
                lemma_first_free(claims, stride, 0);
                assert(k == found) by {
                    if k < found {
                        assert(claims[stride.spec_slot(m as nat, k as nat) as int] is Some);
                    }
                }
                lemma_small_mod(i as nat, n as nat);
                lemma_add_mod_noop(j as int, 1, n as int);
                lemma_add_mod_noop(i as int, 1, n as int);
            }
            entry.set(c, i);
            next.set(i, k + 1);
            j = j + 1;
            i = i + 1;
            proof {
                let after = claims_after(strides@, m as nat, j as nat);
                assert(after == claims.update(c as int, Some((i - 1) as nat)));
                assert forall|x: int, step: nat|
                    0 <= x < next@.len() && step < next@[x] implies after[#[trigger] strides@[x]
                        .spec_slot(after.len(), step) as int] is Some by {
                    let slot = strides@[x].spec_slot(m as nat, step) as int;
                    if x == i - 1 {
                        if step < found {
                            assert(claims[slot] is Some);
                        }
                    } else {
                        assert(claims[slot] is Some);
                    }
                }
            }
        }
        proof {
            if i == n {
                lemma_mod_self_0(n as int);
            }
        }
    }
    proof {
        let claims = claims_after(strides@, m as nat, m as nat);
        lemma_claims_after(strides@, m as nat, m as nat);
        assert forall|c: int| 0 <= c < m implies entry[c] as nat == lookup_table(
            strides@,
            m as nat,
        )[c] && entry[c] < n by {
            lemma_all_claimed(claims, c);
        }
    }
    entry
}

} // verus!
