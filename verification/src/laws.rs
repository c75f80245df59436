//! What holds of every table that was built.
use vstd::arithmetic::div_mod::lemma_mod_bound;
use vstd::prelude::*;

use crate::bertrand::lemma_prime_within_double;
use crate::maglev::{built, built_from, effective_capacity, strides_of, MaglevView};
use crate::primes::{is_least_prime_from, is_prime, lemma_least_prime_unique};
use crate::table::{lemma_slots_shared_evenly, slots_of, strides_fit};

verus! {

/// A table of some nodes has the least prime number of slots that is not
/// below the larger of the requested capacity and one.
pub proof fn lemma_capacity_is_least_prime<N>(view: MaglevView<N>, nodes: Seq<N>, capacity: nat)
    requires
        built(view, nodes, capacity),
        nodes.len() > 0,
    ensures
        is_least_prime_from(
            view.capacity(),
            if capacity >= 1 {
                capacity
            } else {
                1
            },
        ),
        view.table is Some,
        view.table.unwrap().len() == view.capacity(),
{
}

/// Every slot of a table has an owner among the nodes, and the table is as
/// long as its capacity says.
pub proof fn lemma_slots_have_owners<N>(
    view: MaglevView<N>,
    nodes: Seq<N>,
    capacity: nat,
    slot: int,
)
    requires
        built(view, nodes, capacity),
        0 <= slot < view.capacity(),
    ensures
        view.table is Some,
        view.table.unwrap().len() == view.capacity(),
        view.table.unwrap()[slot] < nodes.len(),
{
}

/// Building is a function of its inputs: two tables of the same nodes, with
/// the same digests, built for the same capacity, are one table, and route
/// every digest to the same node.
pub proof fn lemma_same_inputs_same_table<N>(
    a: MaglevView<N>,
    b: MaglevView<N>,
    nodes: Seq<N>,
    capacity: nat,
    digests: Seq<(usize, usize)>,
)
    requires
        built_from(a, nodes, capacity, digests),
        built_from(b, nodes, capacity, digests),
    ensures
        a == b,
        forall|digest: nat| a.owner(digest) == b.owner(digest),
{
    if nodes.len() > 0 {
        lemma_least_prime_unique(a.capacity(), b.capacity(), effective_capacity(capacity));
    }
}

/// A table built of no nodes has no slots and routes no digest to a node.
pub proof fn lemma_no_nodes_no_owner<N>(view: MaglevView<N>, capacity: nat, digest: nat)
    requires
        built(view, Seq::<N>::empty(), capacity),
    ensures
        view.table is None,
        view.capacity() == 0,
        view.owner(digest) is None,
{
}

/// A table of some nodes routes every digest to one of them: the owner of
/// the slot whose index is the digest reduced modulo the capacity.
pub proof fn lemma_some_nodes_some_owner<N>(view: MaglevView<N>, digest: nat)
    requires
        view.wf(),
        view.nodes.len() > 0,
    ensures
        view.table is Some,
        view.owner(digest) is Some,
        view.nodes.contains(view.owner(digest).unwrap()),
{
    let table = view.table.unwrap();
    let slot = (digest % table.len()) as int;
    lemma_mod_bound(digest as int, table.len() as int);
    assert(table[slot] < view.nodes.len());
    assert(view.nodes[table[slot] as int] == view.owner(digest).unwrap());
}

/// The walks that digests give fit the table.
pub proof fn lemma_strides_of_fit(digests: Seq<(usize, usize)>, m: usize)
    requires
        m >= 2,
    ensures
        strides_of(digests, m).len() == digests.len(),
        strides_fit(strides_of(digests, m), m as nat),
{
    assert forall|i: int| 0 <= i < digests.len() implies (#[trigger] strides_of(
        digests,
        m,
    )[i]).fits(m as nat) by {
        lemma_mod_bound(digests[i].0 as int, m as int);
        lemma_mod_bound(digests[i].1 as int, m - 1);
    }
}

/// The nodes share the slots evenly: in a table of `n` nodes and `m` slots
/// every node owns `m / n` slots or one more.
pub proof fn lemma_nodes_share_slots<N>(
    view: MaglevView<N>,
    nodes: Seq<N>,
    capacity: nat,
    node: nat,
)
    requires
        built(view, nodes, capacity),
        node < nodes.len(),
    ensures
        view.table is Some,
        view.capacity() / nodes.len() <= slots_of(view.table.unwrap(), node) <= view.capacity()
            / nodes.len() + 1,
{
    let digests = choose|digests: Seq<(usize, usize)>|
        #[trigger] built_from(view, nodes, capacity, digests);
    let m = view.capacity() as usize;
    lemma_strides_of_fit(digests, m);
    lemma_slots_shared_evenly(strides_of(digests, m), m as nat, node);
}

/// A table has at least two slots and at most twice the slots it was built
/// for: the least prime from a number on is at most its double.
pub proof fn lemma_capacity_at_most_double<N>(view: MaglevView<N>, nodes: Seq<N>, capacity: nat)
    requires
        built(view, nodes, capacity),
        nodes.len() > 0,
    ensures
        2 <= view.capacity() <= 2 * effective_capacity(capacity),
{
    let wanted = effective_capacity(capacity);
    lemma_prime_within_double(wanted);
    let q = choose|q: nat| wanted <= q <= 2 * wanted && #[trigger] is_prime(q);
    if q < view.capacity() {
        assert(!is_prime(q));
    }
}

} // verus!
