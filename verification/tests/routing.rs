use std::hash::{BuildHasher, Hasher};

use maglev::maglev::can_build;
use maglev::{ConsistentHasher, Maglev};

fn days() -> Vec<&'static str> {
    vec!["Monday", "Tuesday", "Wednesday", "Thursday", "Friday", "Saturday", "Sunday"]
}

/// A hasher whose digest is the last `u32` it was fed, so that a `u32` key
/// is its own digest. Of other values it keeps the last four bytes.
#[derive(Clone, Default)]
struct LastWord(u64);

impl Hasher for LastWord {
    fn write(&mut self, bytes: &[u8]) {
        for &b in bytes {
            self.0 = (self.0 << 8 | b as u64) & 0xffff_ffff;
        }
    }

    fn write_u32(&mut self, word: u32) {
        self.0 = word as u64;
    }

    fn finish(&self) -> u64 {
        self.0
    }
}

#[derive(Clone, Default)]
struct BuildLastWord;

impl BuildHasher for BuildLastWord {
    type Hasher = LastWord;

    fn build_hasher(&self) -> LastWord {
        LastWord(0)
    }
}

/// A hasher whose digest is the sum of the words it was fed, so that the
/// digest of a `u32` key is the seed plus the key.
#[derive(Clone, Default)]
struct SumOfWords(u64);

impl Hasher for SumOfWords {
    fn write(&mut self, bytes: &[u8]) {
        for &b in bytes {
            self.0 += b as u64;
        }
    }

    fn write_u32(&mut self, word: u32) {
        self.0 += word as u64;
    }

    fn finish(&self) -> u64 {
        self.0
    }
}

#[derive(Clone, Default)]
struct BuildSumOfWords;

impl BuildHasher for BuildSumOfWords {
    type Hasher = SumOfWords;

    fn build_hasher(&self) -> SumOfWords {
        SumOfWords(0)
    }
}

#[test]
fn capacity_is_least_prime_from_request() {
    assert_eq!(Maglev::with_capacity(days(), 701).capacity(), 701);
    assert_eq!(Maglev::with_capacity(days(), 702).capacity(), 709);
    assert_eq!(Maglev::with_capacity(days(), 0).capacity(), 2);
    assert_eq!(Maglev::with_capacity(days(), 1).capacity(), 2);
    assert_eq!(Maglev::with_capacity(days(), 2).capacity(), 2);
    assert_eq!(Maglev::with_capacity(days(), 4).capacity(), 5);
    assert_eq!(Maglev::with_capacity(days(), 1000).capacity(), 1009);
}

#[test]
fn capacity_defaults_to_hundred_per_node() {
    assert_eq!(Maglev::new(days()).capacity(), 701);
    assert_eq!(Maglev::with_hasher(days(), BuildLastWord).capacity(), 701);
    assert_eq!(Maglev::new(vec!["a"]).capacity(), 101);
    assert_eq!(Maglev::new(vec!["a", "b"]).capacity(), 211);
    assert_eq!(Maglev::new(vec![1u8, 2, 3]).capacity(), 307);
}

#[test]
fn capacity_may_be_below_the_number_of_nodes() {
    let m = Maglev::with_capacity(days(), 3);
    assert_eq!(m.capacity(), 3);
    assert_eq!(m.nodes().len(), 7);
    let table = m.lookup().unwrap();
    let mut owners = table.to_vec();
    owners.sort();
    assert_eq!(owners, vec![0, 1, 2]);
}

#[test]
fn table_length_is_capacity() {
    for capacity in [1usize, 7, 50, 701, 1500] {
        let m = Maglev::with_capacity(days(), capacity);
        assert_eq!(m.lookup().unwrap().len(), m.capacity());
        assert!(m.capacity() >= capacity);
        assert!(m.lookup().unwrap().iter().all(|&owner| owner < 7));
    }
}

#[test]
fn nodes_keep_their_order() {
    let m = Maglev::new(days());
    assert_eq!(m.nodes(), days().as_slice());
    let m = Maglev::new(vec!["b", "a", "b"]);
    assert_eq!(m.nodes(), &["b", "a", "b"]);
}

#[test]
fn duplicate_nodes_compete_for_slots() {
    let m = Maglev::with_capacity(vec!["a", "a"], 11);
    let table = m.lookup().unwrap();
    // equal nodes have equal walks and take turns along them
    assert_eq!(table.iter().filter(|&&owner| owner == 0).count(), 6);
    assert_eq!(table.iter().filter(|&&owner| owner == 1).count(), 5);
    assert_eq!(m["x"], "a");
}

#[test]
fn empty_table_has_no_node_for_any_key() {
    let m = Maglev::<String, _>::new(Vec::new());
    assert_eq!(m.capacity(), 0);
    assert!(m.nodes().is_empty());
    assert!(m.lookup().is_none());
    for key in ["", "alice", "bob", "a longer key"] {
        assert_eq!(m.get(key), None);
    }
    for digest in [0usize, 1, 700, usize::MAX] {
        assert_eq!(m.owner_of(digest), None);
    }
    let m = Maglev::<u32, _>::with_capacity(Vec::new(), 701);
    assert_eq!(m.capacity(), 0);
    assert_eq!(m.get(&5), None);
}

#[test]
fn empty_table_with_given_hasher() {
    let m = Maglev::<&str, _>::with_hasher(Vec::new(), BuildLastWord);
    assert_eq!(m.capacity(), 0);
    assert_eq!(m.get("alice"), None);
    let m = Maglev::<&str, _>::with_capacity_and_hasher(Vec::new(), usize::MAX, BuildLastWord);
    assert_eq!(m.capacity(), 0);
    assert_eq!(m.get("alice"), None);
}

#[test]
fn owner_of_reads_the_slot_of_the_digest() {
    let m = Maglev::new(days());
    let table = m.lookup().unwrap();
    for digest in [0usize, 1, 700, 701, 702, 123_456_789, usize::MAX] {
        assert_eq!(m.owner_of(digest), Some(&m.nodes()[table[digest % 701]]));
    }
}

#[test]
fn get_hashes_the_key_with_the_offset_seed() {
    // with this hasher a digest is the last word fed: the seed is written
    // first, then the key, so a u32 key is its own digest
    let m = Maglev::with_capacity_and_hasher(vec![10u32, 20, 30, 40], 97, BuildLastWord);
    let table = m.lookup().unwrap();
    for key in [0u32, 1, 96, 97, 98, 1_000_000, u32::MAX] {
        assert_eq!(m.get(&key), Some(&m.nodes()[table[key as usize % 97]]));
    }
}

#[test]
fn nodes_are_placed_by_their_two_digests() {
    // a node's two digests are both the node itself here: node 3 walks from
    // slot 3 in steps of 3 % 6 + 1 = 4, node 0 from 0 in steps of 1, node 10
    // from 3 in steps of 10 % 6 + 1 = 5
    let m = Maglev::with_capacity_and_hasher(vec![3u32, 0, 10], 7, BuildLastWord);
    // walks: 3 0 4 1 5 2 6, 0 1 2 3 4 5 6, 3 1 6 4 2 0 5
    // turns: 3, 0, 1 | 4, 2, 6 | 5
    assert_eq!(m.lookup().unwrap(), &[1, 2, 1, 0, 0, 0, 2]);
    assert_eq!(m.get(&4u32), Some(&3));
    assert_eq!(m.get(&9u32), Some(&0));
    assert_eq!(m.get(&13u32), Some(&10));
}

#[test]
fn building_twice_gives_the_same_table() {
    let a = Maglev::new(days());
    let b = Maglev::new(days());
    assert_eq!(a.lookup(), b.lookup());
    assert_eq!(a.capacity(), b.capacity());
    for i in 0..1000 {
        let key = format!("key-{}", i);
        assert_eq!(a.get(key.as_str()), b.get(key.as_str()));
    }
}

#[test]
fn clone_routes_alike() {
    let a = Maglev::new(days());
    let b = a.clone();
    assert_eq!(a.lookup(), b.lookup());
    assert_eq!(a.nodes(), b.nodes());
    assert_eq!(a["alice"], b["alice"]);
}

#[test]
fn removing_a_node_moves_few_keys() {
    let before = Maglev::new(days());
    let sample = 5000;
    for gone in 0..7 {
        let mut rest = days();
        let removed = rest.remove(gone);
        let after = Maglev::with_capacity(rest, before.capacity());
        assert_eq!(after.capacity(), before.capacity());
        let mut moved = 0;
        for i in 0..sample {
            let key = format!("key-{}", i);
            let old = before[key.as_str()];
            let new = after[key.as_str()];
            assert_ne!(new, removed);
            if old != new {
                moved += 1;
            }
        }
        // the keys of the removed node must move, about a seventh of all;
        // fewer than two sevenths do
        assert!(moved * 7 < 2 * sample, "{} of {} keys moved", moved, sample);
    }
}

#[test]
fn keys_spread_evenly_over_nodes() {
    let m = Maglev::new(days());
    let sample = 70_000;
    let mut routed = vec![0usize; 7];
    for i in 0..sample {
        let key = format!("key-{}", i);
        let node = m[key.as_str()];
        let index = days().iter().position(|&d| d == node).unwrap();
        routed[index] += 1;
    }
    for count in routed {
        // a seventh each, within a tenth of that
        assert!(count > 9_000 && count < 11_000, "{} keys on one node", count);
    }
}

#[test]
fn slots_are_shared_evenly() {
    let m = Maglev::new(days());
    let table = m.lookup().unwrap();
    for node in 0..7 {
        let owned = table.iter().filter(|&&owner| owner == node).count();
        assert_eq!(owned, if node == 0 { 101 } else { 100 });
    }
}

#[test]
fn table_of_given_digests() {
    // offsets 3, 0, 3 and skips 4, 2, 1 over seven slots
    let digests = vec![(3, 3), (7, 1), (10, 6)];
    let m = Maglev::with_digests(vec!["a", "b", "c"], &digests, 7, BuildLastWord);
    assert_eq!(m.capacity(), 7);
    assert_eq!(m.lookup().unwrap(), &[1, 0, 1, 0, 2, 2, 0]);
    assert_eq!(m.owner_of(0), Some(&"b"));
    assert_eq!(m.owner_of(4), Some(&"c"));
    assert_eq!(m.owner_of(13), Some(&"a"));
    assert_eq!(m.owner_of(7 * 1000 + 5), Some(&"c"));
}

#[test]
fn table_of_given_digests_rounds_capacity_up() {
    let digests = vec![(0, 0), (0, 1)];
    let m = Maglev::with_digests(vec![10, 20], &digests, 3, BuildLastWord);
    assert_eq!(m.lookup().unwrap(), &[0, 0, 1]);
    let m = Maglev::with_digests(vec![10, 20], &digests, 4, BuildLastWord);
    // five slots; walks 0 1 2 3 4 and 0 2 4 1 3
    assert_eq!(m.lookup().unwrap(), &[0, 0, 1, 0, 1]);
    let m = Maglev::with_digests(vec![10, 20], &digests, 0, BuildLastWord);
    // two slots; both walks start at slot 0 and step by 1
    assert_eq!(m.lookup().unwrap(), &[0, 1]);
}

#[test]
fn table_of_no_nodes_and_no_digests() {
    let m = Maglev::<u8, _>::with_digests(Vec::new(), &Vec::new(), 7, BuildLastWord);
    assert_eq!(m.capacity(), 0);
    assert_eq!(m.owner_of(3), None);
}

#[test]
fn same_digests_same_table() {
    let digests: Vec<(usize, usize)> = (0..7).map(|i| (i * 7919 + 3, i * 104_729 + 11)).collect();
    let a = Maglev::with_digests(days(), &digests, 701, BuildLastWord);
    let b = Maglev::with_digests(days(), &digests, 701, BuildLastWord);
    assert_eq!(a.lookup(), b.lookup());
    for digest in 0..2000 {
        assert_eq!(a.owner_of(digest), b.owner_of(digest));
    }
}

#[test]
fn hasher_digests_place_the_nodes() {
    // the table that the hasher gives is the table of the digests it gives
    let nodes = vec![3u32, 0, 10, 77, 1234];
    let digests: Vec<(usize, usize)> = nodes.iter().map(|&n| (n as usize, n as usize)).collect();
    let a = Maglev::with_capacity_and_hasher(nodes.clone(), 53, BuildLastWord);
    let b = Maglev::with_digests(nodes, &digests, 53, BuildLastWord);
    assert_eq!(a.lookup(), b.lookup());
}

#[test]
fn nodes_are_hashed_with_both_seeds() {
    // a node's walk starts at its digest under 0xdeadbabe and steps by its
    // digest under 0xdeadbeef
    let nodes = vec![1u32, 2, 3, 500, 70_000];
    let digests: Vec<(usize, usize)> = nodes
        .iter()
        .map(|&n| (0xdead_babe_usize + n as usize, 0xdead_beef_usize + n as usize))
        .collect();
    let a = Maglev::with_capacity_and_hasher(nodes.clone(), 97, BuildSumOfWords);
    let b = Maglev::with_digests(nodes, &digests, 97, BuildSumOfWords);
    assert_eq!(a.lookup(), b.lookup());
    // the two seeds differ by 0x431, so the table is not that of one seed
    let one_seed: Vec<(usize, usize)> = digests.iter().map(|&(o, _)| (o, o)).collect();
    let c = Maglev::with_digests(vec![1u32, 2, 3, 500, 70_000], &one_seed, 97, BuildSumOfWords);
    assert_ne!(a.lookup(), c.lookup());
}

#[test]
fn keys_are_hashed_with_the_offset_seed() {
    let m = Maglev::with_capacity_and_hasher(vec![1u32, 2, 3, 500, 70_000], 97, BuildSumOfWords);
    for key in [0u32, 1, 96, 97, 5000] {
        assert_eq!(m.get(&key), m.owner_of(0xdead_babe_usize + key as usize));
    }
    let table = m.lookup().unwrap();
    // 0xdeadbabe is 34 modulo 97
    assert_eq!(0xdead_babe_usize % 97, 34);
    assert_eq!(m.get(&0u32), Some(&m.nodes()[table[34]]));
    assert_eq!(m.get(&63u32), Some(&m.nodes()[table[0]]));
}

#[test]
fn what_can_be_built() {
    assert!(can_build(0, None));
    assert!(can_build(0, Some(0)));
    assert!(can_build(0, Some(usize::MAX)));
    assert!(can_build(7, None));
    assert!(can_build(7, Some(0)));
    assert!(can_build(7, Some(701)));
    assert!(can_build(1, Some(usize::MAX / 2)));
    assert!(!can_build(1, Some(usize::MAX / 2 + 1)));
    assert!(!can_build(1, Some(usize::MAX)));
    assert!(can_build(usize::MAX / 200, None));
    assert!(!can_build(usize::MAX / 200 + 1, None));
    assert!(!can_build(usize::MAX / 100 + 1, None));
    assert!(can_build(usize::MAX, Some(5)));
    assert!(can_build(usize::MAX, Some(0)));
}

#[test]
fn a_capacity_of_zero_asks_for_two_slots() {
    let m = Maglev::with_capacity(days(), 0);
    assert_eq!(m.capacity(), 2);
    assert_eq!(m.lookup().unwrap().len(), 2);
    let m = Maglev::with_capacity_and_hasher(days(), 0, BuildLastWord);
    assert_eq!(m.capacity(), 2);
    let m = Maglev::with_capacity(vec!["a"], 0);
    assert_eq!(m.lookup().unwrap(), &[0, 0]);
    assert_eq!(m["x"], "a");
    // no capacity asks for a hundred slots for each node
    assert_eq!(Maglev::new(vec!["a"]).capacity(), 101);
}
