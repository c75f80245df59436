//! The interface of a consistent hasher.
use std::borrow::Borrow;
use std::hash::Hash;
use vstd::prelude::*;

verus! {

/// Consistent hashing routes keys to nodes so that, when the set of nodes
/// changes, only about `K/n` of `K` keys move, `n` being the number of nodes.
pub trait ConsistentHasher<N: Sized> {
    /// The nodes, as a sequence.
    spec fn spec_nodes(&self) -> Seq<N>;

    /// The number of slots in the lookup table.
    spec fn spec_capacity(&self) -> nat;

    /// Returns all nodes.
    fn nodes(&self) -> (nodes: &[N])
        ensures
            nodes@ == self.spec_nodes(),
    ;

    /// Returns the number of slots in the lookup table.
    fn capacity(&self) -> (capacity: usize)
        ensures
            capacity == self.spec_capacity(),
    ;

    /// Returns a reference to the node that the key is routed to: one of
    /// the nodes, and none exactly when there is no node.
    fn get<Q: ?Sized>(&self, key: &Q) -> (node: Option<&N>) where Q: Hash + Eq, N: Borrow<Q>
        ensures
            node is None <==> self.spec_nodes().len() == 0,
            node matches Some(owner) ==> self.spec_nodes().contains(*owner),
    ;
}

} // verus!
