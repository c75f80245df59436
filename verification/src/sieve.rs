//! The search for the size of the table.
use vstd::prelude::*;

use primal::Sieve;

use crate::bertrand::lemma_prime_within_double;
use crate::primes::{is_least_prime_from, prime_within};

verus! {

/// Sieves the numbers up to `limit` with `primal::Sieve::new` and takes the
/// first item of `Sieve::primes_from(from)`.
///
/// The sieve knows the primes up to a bound that is at least `limit`, and
/// the iterator walks, in increasing order, the primes from `from` up to that
/// bound. So a returned number is the least prime not below `from`, and
/// `None` means that no prime lies between `from` and `limit`.
///
/// `primes_from` panics when `from` is beyond the sieve's bound. It also
/// reads the segment of the sieve that holds `from`, and the sieve is sure
/// to hold that segment only for the numbers below `limit`: where `limit`
/// is the first number of a segment, the segment of `limit` itself is not
/// there. `from < limit` rules both out. The sieve takes memory in
/// proportion to `limit`.
#[verifier::external_body]
fn first_prime_from(limit: usize, from: usize) -> (found: Option<usize>)
    requires
        from < limit,
    ensures
        match found {
            Some(p) => is_least_prime_from(p as nat, from as nat),
            None => !prime_within(from as nat, limit as nat),
        },
{
    Sieve::new(limit).primes_from(from).next()
}

/// The least prime that is not below `from`.
///
/// It is searched for up to twice `from`, where there always is one.
pub fn least_prime_from(from: usize) -> (p: usize)
    requires
        from >= 1,
        2 * from <= usize::MAX,
    ensures
        is_least_prime_from(p as nat, from as nat),
        p <= 2 * from,
{
    let limit: usize = from * 2;
    let found = first_prime_from(limit, from);
    proof {
        lemma_prime_within_double(from as nat);
    }
    found.unwrap()
}

} // verus!
