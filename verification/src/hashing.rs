//! Seeded digests of nodes and keys.
//!
//! A digest is made by a fresh hasher from the table's hash builder, fed the
//! seed and then the value. Two seeds give each node two digests: one places
//! its walk, the other sets its stride. Keys are hashed with the first seed.
use std::collections::hash_map::DefaultHasher;
use std::hash::{BuildHasher, BuildHasherDefault, Hash, Hasher};
use vstd::prelude::*;

verus! {

/// The seed of the digest that gives a node's offset and a key's slot.
pub const OFFSET_SEED: u32 = 0xdead_babe;

/// The seed of the digest that gives a node's skip.
pub const SKIP_SEED: u32 = 0xdead_beef;

/// `std::hash::BuildHasherDefault`, the hash builder that makes hashers by
/// `Default`. Nothing is known of what is inside.
#[verifier::external_type_specification]
#[verifier::external_body]
#[verifier::reject_recursive_types(H)]
pub struct ExBuildHasherDefault<H>(BuildHasherDefault<H>);

/// `BuildHasherDefault::default`: the hash builder of tables that are given
/// none. Nothing is claimed of it.
#[verifier::external_body]
pub(crate) fn default_hash_builder() -> BuildHasherDefault<DefaultHasher> {
    BuildHasherDefault::default()
}

/// `BuildHasher::build_hasher`: a fresh hasher. What it is depends on the
/// implementation of the trait, so nothing is claimed of it.
#[verifier::external_body]
pub(crate) fn build_hasher<S: BuildHasher>(hash_builder: &S) -> S::Hasher {
    hash_builder.build_hasher()
}

/// `Hasher::write_u32`: feeds a word to the hasher. Nothing is claimed of
/// the hasher's new state.
#[verifier::external_body]
pub(crate) fn write_u32<H: Hasher>(hasher: &mut H, word: u32) {
    hasher.write_u32(word)
}

/// `Hash::hash`: feeds the value to the hasher. Nothing is claimed of the
/// hasher's new state.
#[verifier::external_body]
pub(crate) fn hash<Q: Hash + ?Sized, H: Hasher>(value: &Q, hasher: &mut H) {
    value.hash(hasher)
}

/// `Hasher::finish`: the digest of what the hasher was fed. Nothing is
/// claimed of its value.
#[verifier::external_body]
pub(crate) fn finish<H: Hasher>(hasher: &H) -> u64 {
    hasher.finish()
}

} // verus!
