//! The Maglev lookup table.
use std::borrow::Borrow;
use std::collections::hash_map::DefaultHasher;
use std::hash::{BuildHasher, BuildHasherDefault, Hash};
use std::ops::Index;
use vstd::prelude::*;

use crate::conshash::ConsistentHasher;
use crate::hashing::{
    build_hasher, default_hash_builder, finish, hash, write_u32, OFFSET_SEED, SKIP_SEED,
};
use crate::permutation::Stride;
use crate::primes::{is_least_prime_from, is_prime};
use crate::sieve::least_prime_from;
use crate::table::{lookup_table, strides_fit};

verus! {

/// What a table is to its users: the nodes in the order given, and the owner
/// of each slot. There is no table when there are no nodes.
pub struct MaglevView<N> {
    pub nodes: Seq<N>,
    pub table: Option<Seq<nat>>,
}

impl<N> MaglevView<N> {
    /// The table is absent exactly when there are no nodes; a table has a
    /// prime number of slots, each owned by one of the nodes.
    pub open spec fn wf(self) -> bool {
        match self.table {
            None => self.nodes.len() == 0,
            Some(table) => {
                &&& self.nodes.len() > 0
                &&& is_prime(table.len())
                &&& forall|c: int| 0 <= c < table.len() ==> #[trigger] table[c] < self.nodes.len()
            },
        }
    }

    /// The number of slots, zero without a table.
    pub open spec fn capacity(self) -> nat {
        match self.table {
            None => 0,
            Some(table) => table.len(),
        }
    }

    /// The node that a key with this digest is routed to.
    pub open spec fn owner(self, digest: nat) -> Option<N> {
        match self.table {
            None => None,
            Some(table) => Some(self.nodes[table[(digest % table.len()) as int] as int]),
        }
    }
}

/// The capacity of a table of `n` nodes for which none is requested: a
/// hundred slots for each node.
pub open spec fn default_capacity(n: nat) -> nat {
    100 * n
}

/// The capacity that a table is built for: the requested one, or one if that
/// is more.
pub open spec fn effective_capacity(capacity: nat) -> nat {
    if capacity == 0 {
        1
    } else {
        capacity
    }
}

/// The search for the table size fits the machine: it goes up to twice the
/// effective capacity.
pub open spec fn search_fits(capacity: nat) -> bool {
    2 * effective_capacity(capacity) <= usize::MAX
}

/// The capacity asked for: the one given, or the default for `n` nodes.
pub open spec fn requested_capacity(n: nat, capacity: Option<usize>) -> nat {
    match capacity {
        Some(capacity) => capacity as nat,
        None => default_capacity(n),
    }
}

/// Whether a table of `n` nodes can be built on this machine, for the
/// capacity given or for the default one: whether there are no nodes, or the
/// search for the table size fits.
pub fn can_build(n: usize, capacity: Option<usize>) -> (fits: bool)
    ensures
        fits == (n > 0 ==> search_fits(requested_capacity(n as nat, capacity))),
{
    if n == 0 {
        return true;
    }
    let wanted: usize = match capacity {
        Some(capacity) => if capacity == 0 {
            1
        } else {
            capacity
        },
        None => match n.checked_mul(100) {
            Some(wanted) => wanted,
            None => {
                return false;
            },
        },
    };
    wanted <= usize::MAX / 2
}

/// The walks of nodes with these digests over `m` slots.
pub open spec fn strides_of(digests: Seq<(usize, usize)>, m: usize) -> Seq<Stride> {
    Seq::new(digests.len(), |i: int| Stride::spec_from_digests(digests[i].0, digests[i].1, m))
}

/// The table of `m` slots of nodes with these digests.
pub open spec fn table_of<N>(nodes: Seq<N>, digests: Seq<(usize, usize)>, m: usize) -> MaglevView<
    N,
> {
    MaglevView {
        nodes,
        table: if nodes.len() == 0 {
            None
        } else {
            Some(lookup_table(strides_of(digests, m), m as nat))
        },
    }
}

/// `view` is the table of `nodes` with these digests, built for `capacity`:
/// its size is the least prime not below the effective capacity, and its
/// slots are owned as the filling order gives.
pub open spec fn built_from<N>(
    view: MaglevView<N>,
    nodes: Seq<N>,
    capacity: nat,
    digests: Seq<(usize, usize)>,
) -> bool {
    &&& view.wf()
    &&& digests.len() == nodes.len()
    &&& view == table_of(nodes, digests, view.capacity() as usize)
    &&& nodes.len() > 0 ==> is_least_prime_from(view.capacity(), effective_capacity(capacity))
}

/// `view` is a table of `nodes` built for `capacity`, whatever the digests
/// of the nodes were.
pub open spec fn built<N>(view: MaglevView<N>, nodes: Seq<N>, capacity: nat) -> bool {
    exists|digests: Seq<(usize, usize)>| #[trigger] built_from(view, nodes, capacity, digests)
}

/// Maglev lookup table
#[derive(Debug)]
pub struct Maglev<N, S = BuildHasherDefault<DefaultHasher>> {
    nodes: Vec<N>,
    lookup: Option<Vec<usize>>,
    hash_builder: S,
}

/// The view of a table with these nodes and this vector of owners.
spec fn view_of<N>(nodes: Seq<N>, lookup: Option<Vec<usize>>) -> MaglevView<N> {
    MaglevView {
        nodes,
        table: match lookup {
            None => None,
            Some(owners) => Some(owners@.map_values(|owner: usize| owner as nat)),
        },
    }
}

impl<N, S> View for Maglev<N, S> {
    type V = MaglevView<N>;

    closed spec fn view(&self) -> MaglevView<N> {
        view_of(self.nodes@, self.lookup)
    }
}

impl<N: Clone, S: Clone> Clone for Maglev<N, S> {
    /// A table of clones of the nodes, with the same owner for each slot.
    fn clone(&self) -> (copy: Self)
        ensures
            copy@.table == self@.table,
            copy@.nodes.len() == self@.nodes.len(),
            forall|i: int|
                0 <= i < self@.nodes.len() ==> cloned(self@.nodes[i], #[trigger] copy@.nodes[i]),
            cloned(self.hasher(), copy.hasher()),
    {
        proof {
            use_type_invariant(self);
        }
        let lookup = match &self.lookup {
            None => None,
            Some(table) => {
                let table_copy = table.clone();
                assert(table_copy@ =~= table@);
                Some(table_copy)
            },
        };
        Maglev { nodes: self.nodes.clone(), lookup, hash_builder: self.hash_builder.clone() }
    }
}

impl<N: Hash + Eq> Maglev<N, BuildHasherDefault<DefaultHasher>> {
    /// Creates a `Maglev` lookup table, with a hundred slots for each node
    /// as its capacity.
    pub fn new(nodes: Vec<N>) -> (maglev: Self)
        requires
            nodes.len() > 0 ==> search_fits(default_capacity(nodes.len() as nat)),
        ensures
            built(maglev@, nodes@, default_capacity(nodes.len() as nat)),
    {
        Maglev::with_hasher(nodes, default_hash_builder())
    }

    /// Creates a `Maglev` lookup table with the specified capacity.
    pub fn with_capacity(nodes: Vec<N>, capacity: usize) -> (maglev: Self)
        requires
            nodes.len() > 0 ==> search_fits(capacity as nat),
        ensures
            built(maglev@, nodes@, capacity as nat),
    {
        Maglev::with_capacity_and_hasher(nodes, capacity, default_hash_builder())
    }
}

impl<N, S> Maglev<N, S> {
    #[verifier::type_invariant]
    spec fn well_formed(self) -> bool {
        self@.wf()
    }

    /// The hash builder that keys are hashed with.
    pub closed spec fn hasher(&self) -> S {
        self.hash_builder
    }
}

impl<N: Hash + Eq, S: BuildHasher> Maglev<N, S> {
    /// Creates a `Maglev` lookup table which will use the given hash builder to hash keys,
    /// with a hundred slots for each node as its capacity.
    pub fn with_hasher(nodes: Vec<N>, hash_builder: S) -> (maglev: Self)
        requires
            nodes.len() > 0 ==> search_fits(default_capacity(nodes.len() as nat)),
        ensures
            built(maglev@, nodes@, default_capacity(nodes.len() as nat)),
            maglev.hasher() == hash_builder,
    {
        let capacity: usize = nodes.len() * 100;
        Maglev::with_capacity_and_hasher(nodes, capacity, hash_builder)
    }

    /// Creates a `Maglev` lookup table with the specified capacity, using hasher to hash the keys.
    ///
    /// The table gets the least prime number of slots that is not below the
    /// capacity: two slots for a capacity of zero or one.
    pub fn with_capacity_and_hasher(nodes: Vec<N>, capacity: usize, hash_builder: S) -> (maglev:
        Self)
        requires
            nodes.len() > 0 ==> search_fits(capacity as nat),
        ensures
            built(maglev@, nodes@, capacity as nat),
            maglev.hasher() == hash_builder,
    {
        let digests = Self::node_digests(&nodes, &hash_builder);
        Maglev::with_digests(nodes, &digests, capacity, hash_builder)
    }

    /// Creates a `Maglev` lookup table of nodes whose digests are given: for
    /// each node the digest that places its walk and the digest that sets
    /// its stride. Keys are hashed with the hash builder.
    pub fn with_digests(
        nodes: Vec<N>,
        digests: &Vec<(usize, usize)>,
        capacity: usize,
        hash_builder: S,
    ) -> (maglev: Self)
        requires
            digests.len() == nodes.len(),
            nodes.len() > 0 ==> search_fits(capacity as nat),
        ensures
            built_from(maglev@, nodes@, capacity as nat, digests@),
            maglev.hasher() == hash_builder,
    {
        let lookup = Self::populate(digests, capacity);
        proof {
            assert(view_of(nodes@, lookup) == table_of(
                nodes@,
                digests@,
                view_of(nodes@, lookup).capacity() as usize,
            ));
        }
        Maglev { nodes, lookup, hash_builder }
    }

    /// The digest of `key` under `seed`, cut to the width of `usize`: a
    /// fresh hasher is fed the seed, then the key. What the digest is lies
    /// with the hash builder and with how the key feeds a hasher.
    fn hash_with_seed<Q: Hash + Eq + ?Sized>(key: &Q, seed: u32, hash_builder: &S) -> usize {
        let mut hasher = build_hasher(hash_builder);
        write_u32(&mut hasher, seed);
        hash(key, &mut hasher);
        let digest: u64 = finish(&hasher);
        #[verifier::truncate]
        (digest as usize)
    }

    /// The two digests of each node: under the offset seed and under the
    /// skip seed.
    fn node_digests(nodes: &Vec<N>, hash_builder: &S) -> (digests: Vec<(usize, usize)>)
        ensures
            digests.len() == nodes.len(),
    {
        let mut digests: Vec<(usize, usize)> = Vec::new();
        let mut i: usize = 0;
        while i < nodes.len()
            invariant
                i <= nodes.len(),
                digests.len() == i,
            decreases nodes.len() - i,
        {
            let offset_digest = Self::hash_with_seed(&nodes[i], OFFSET_SEED, hash_builder);
            let skip_digest = Self::hash_with_seed(&nodes[i], SKIP_SEED, hash_builder);
            digests.push((offset_digest, skip_digest));
            i = i + 1;
        }
        digests
    }

    /// The owners of the slots of a table of the nodes with these digests,
    /// or none for no nodes.
    ///
    /// The size of the table is the least prime not below the capacity, and
    /// not below one. Each node walks the table as its two digests say, and
    /// the nodes fill it in turns.
    fn populate(digests: &Vec<(usize, usize)>, capacity: usize) -> (lookup: Option<Vec<usize>>)
        requires
            digests.len() > 0 ==> search_fits(capacity as nat),
        ensures
            digests.len() == 0 <==> lookup is None,
            lookup matches Some(entry) ==> {
                &&& is_least_prime_from(entry.len() as nat, effective_capacity(capacity as nat))
                &&& entry@.map_values(|owner: usize| owner as nat) == lookup_table(
                    strides_of(digests@, entry.len()),
                    entry.len() as nat,
                )
                &&& forall|c: int| 0 <= c < entry.len() ==> entry[c] < digests.len()
            },
    {
        let n: usize = digests.len();
        if n == 0 {
            return None;
        }
        let wanted: usize = if capacity == 0 {
            1
        } else {
            capacity
        };
        let m = least_prime_from(wanted);
        let strides = Self::strides(digests, m);
        let entry = crate::table::populate(&strides, m);
        assert(entry@.map_values(|owner: usize| owner as nat) =~= lookup_table(
            strides_of(digests@, m),
            m as nat,
        ));
        Some(entry)
    }

    /// The walk of each node over `m` slots, from the node's two digests.
    fn strides(digests: &Vec<(usize, usize)>, m: usize) -> (strides: Vec<Stride>)
        requires
            m >= 2,
        ensures
            strides@ == strides_of(digests@, m),
            strides_fit(strides@, m as nat),
    {
        let mut strides: Vec<Stride> = Vec::new();
        let mut i: usize = 0;
        while i < digests.len()
            invariant
                m >= 2,
                i <= digests.len(),
                strides.len() == i,
                strides@ =~= strides_of(digests@.take(i as int), m),
                strides_fit(strides@, m as nat),
            decreases digests.len() - i,
        {
            let (offset_digest, skip_digest) = digests[i];
            strides.push(Stride::from_digests(offset_digest, skip_digest, m));
            i = i + 1;
        }
        assert(digests@.take(digests.len() as int) =~= digests@);
        strides
    }

    /// The owner of each slot, or none without a table.
    pub fn lookup(&self) -> (table: Option<&[usize]>)
        ensures
            table is Some <==> self@.table is Some,
            table matches Some(owners) ==> self@.table == Some(
                owners@.map_values(|owner: usize| owner as nat),
            ),
            self@.wf(),
    {
        proof {
            use_type_invariant(self);
        }
        match &self.lookup {
            None => None,
            Some(lookup) => Some(lookup.as_slice()),
        }
    }

    /// The node that a key with this digest is routed to: the owner of the
    /// slot whose index is the digest reduced modulo the number of slots.
    pub fn owner_of(&self, digest: usize) -> (node: Option<&N>)
        ensures
            match node {
                Some(owner) => self@.owner(digest as nat) == Some(*owner),
                None => self@.owner(digest as nat) is None,
            },
            self@.wf(),
    {
        proof {
            use_type_invariant(self);
        }
        match &self.lookup {
            None => None,
            Some(lookup) => {
                let slot: usize = digest % lookup.len();
                Some(&self.nodes[lookup[slot]])
            },
        }
    }
}

impl<N, S> ConsistentHasher<N> for Maglev<N, S> where N: Hash + Eq, S: BuildHasher {
    open spec fn spec_nodes(&self) -> Seq<N> {
        self@.nodes
    }

    open spec fn spec_capacity(&self) -> nat {
        self@.capacity()
    }

    fn nodes(&self) -> (nodes: &[N])
        ensures
            self@.wf(),
    {
        proof {
            use_type_invariant(self);
        }
        self.nodes.as_slice()
    }

    fn capacity(&self) -> (capacity: usize)
        ensures
            self@.wf(),
    {
        proof {
            use_type_invariant(self);
        }
        match &self.lookup {
            None => 0,
            Some(lookup) => lookup.len(),
        }
    }

    /// Returns the node that owns the slot of the key's digest under the
    /// offset seed.
    fn get<Q: ?Sized>(&self, key: &Q) -> (node: Option<&N>) where Q: Hash + Eq, N: Borrow<Q>
        ensures
            node matches Some(owner) ==> exists|digest: usize|
                self@.owner(digest as nat) == Some(*owner),
            self@.wf(),
    {
        proof {
            use_type_invariant(self);
        }
        let digest = Self::hash_with_seed(key, OFFSET_SEED, &self.hash_builder);
        self.owner_of(digest)
    }
}

impl<N, S, Q> Index<&Q> for Maglev<N, S> where
    N: Hash + Eq + Borrow<Q>,
    S: BuildHasher,
    Q: Hash + Eq + ?Sized,
 {
    type Output = N;

    /// The node that the key is routed to, for a table that has nodes.
    fn index(&self, index: &Q) -> (node: &N)
        ensures
            self@.nodes.contains(*node),
            exists|digest: usize| self@.owner(digest as nat) == Some(*node),
    {
        self.get(index).unwrap()
    }
}

impl<N, S, Q> vstd::std_specs::core::IndexSpecImpl<&Q> for Maglev<N, S> where
    N: Hash + Eq + Borrow<Q>,
    S: BuildHasher,
    Q: Hash + Eq + ?Sized,
 {
    open spec fn index_req(&self, index: &&Q) -> bool {
        self@.nodes.len() > 0
    }
}

} // verus!
