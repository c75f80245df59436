use maglev::permutation::Stride;
use maglev::sieve::least_prime_from;
use maglev::table::populate;

fn stride(offset: usize, skip: usize) -> Stride {
    Stride { offset, skip }
}

#[test]
fn least_prime_is_found() {
    assert_eq!(least_prime_from(700), 701);
    assert_eq!(least_prime_from(701), 701);
    assert_eq!(least_prime_from(702), 709);
    assert_eq!(least_prime_from(100), 101);
    assert_eq!(least_prime_from(8), 11);
    assert_eq!(least_prime_from(90), 97);
}

#[test]
fn least_prime_of_small_numbers() {
    assert_eq!(least_prime_from(1), 2);
    assert_eq!(least_prime_from(2), 2);
    assert_eq!(least_prime_from(3), 3);
    assert_eq!(least_prime_from(4), 5);
    assert_eq!(least_prime_from(5), 5);
    assert_eq!(least_prime_from(6), 7);
    assert_eq!(least_prime_from(7), 7);
}

#[test]
fn least_prime_is_at_most_the_double() {
    for from in 1..2000 {
        let p = least_prime_from(from);
        assert!(from <= p && p <= 2 * from);
        assert!((2..p).all(|d| p % d != 0));
        assert!((from..p).all(|q| (2..q).any(|d| q % d == 0) || q < 2));
    }
}

#[test]
fn least_prime_across_a_large_gap() {
    // 113 is followed by 127: the widest gap below a thousand but one.
    assert_eq!(least_prime_from(114), 127);
    assert_eq!(least_prime_from(888), 907);
    assert_eq!(least_prime_from(100_000), 100_003);
}

#[test]
fn stride_from_digests() {
    assert_eq!(Stride::from_digests(10, 13, 7), stride(3, 2));
    assert_eq!(Stride::from_digests(0, 0, 7), stride(0, 1));
    assert_eq!(Stride::from_digests(6, 5, 7), stride(6, 6));
    assert_eq!(Stride::from_digests(7, 6, 7), stride(0, 1));
    assert_eq!(Stride::from_digests(usize::MAX, usize::MAX, 2), stride(1, 1));
}

#[test]
fn skip_is_never_zero() {
    for digest in 0..100 {
        let s = Stride::from_digests(digest, digest, 13);
        assert!(s.skip >= 1 && s.skip <= 12);
        assert!(s.offset < 13);
    }
}

#[test]
fn slot_of_a_step() {
    assert_eq!(stride(3, 4).slot(7, 0), 3);
    assert_eq!(stride(3, 4).slot(7, 1), 0);
    assert_eq!(stride(3, 4).slot(7, 5), 2);
    assert_eq!(stride(3, 4).slot(7, 6), 6);
    assert_eq!(stride(0, 2).slot(7, 4), 1);
}

#[test]
fn slot_of_a_step_does_not_overflow() {
    let m = usize::MAX;
    // (m - 1) + (m - 1) * (m - 1) is a multiple of m
    assert_eq!(stride(m - 1, m - 1).slot(m, m - 1), 0);
    assert_eq!(stride(m - 1, m - 1).slot(m, 2), m - 3);
}

#[test]
fn walk_visits_every_slot_once() {
    let m = 13;
    for skip in 1..m {
        let s = stride(5, skip);
        let mut seen = vec![false; m];
        for k in 0..m {
            let c = s.slot(m, k);
            assert!(!seen[c]);
            seen[c] = true;
        }
        assert!(seen.iter().all(|&b| b));
    }
}

#[test]
fn populate_three_nodes_seven_slots() {
    // walks: 3 0 4 1 5 2 6, 0 2 4 6 1 3 5, 3 4 5 6 0 1 2
    let strides = vec![stride(3, 4), stride(0, 2), stride(3, 1)];
    assert_eq!(populate(&strides, 7), vec![1, 0, 1, 0, 2, 2, 0]);
}

#[test]
fn populate_one_node() {
    let strides = vec![stride(1, 1)];
    assert_eq!(populate(&strides, 2), vec![0, 0]);
    assert_eq!(populate(&strides, 5), vec![0, 0, 0, 0, 0]);
}

#[test]
fn populate_equal_walks() {
    // two nodes with one walk: they alternate along it
    let strides = vec![stride(0, 1), stride(0, 1)];
    assert_eq!(populate(&strides, 5), vec![0, 1, 0, 1, 0]);
}

#[test]
fn populate_more_nodes_than_slots() {
    // only the first three nodes get a turn
    let strides = vec![stride(2, 1), stride(2, 1), stride(0, 2), stride(1, 1)];
    assert_eq!(populate(&strides, 3), vec![1, 2, 0]);
}

#[test]
fn populate_stops_in_the_middle_of_a_round() {
    let strides = vec![stride(0, 1), stride(4, 4), stride(2, 3)];
    // turns: node 0 takes 0, node 1 takes 4, node 2 takes 2, node 0 takes 1,
    // node 1 takes 3
    assert_eq!(populate(&strides, 5), vec![0, 0, 2, 1, 1]);
}

#[test]
fn populate_shares_slots_evenly() {
    let m = 701;
    let strides: Vec<Stride> =
        (0..7).map(|i| Stride::from_digests(i * 977 + 13, i * 619 + 5, m)).collect();
    let table = populate(&strides, m);
    assert_eq!(table.len(), m);
    for node in 0..7 {
        let owned = table.iter().filter(|&&owner| owner == node).count();
        // 701 = 7 * 100 + 1: the first node has one turn more
        assert_eq!(owned, if node == 0 { 101 } else { 100 });
    }
}

#[test]
fn populate_is_repeatable() {
    let strides = vec![stride(3, 4), stride(0, 2), stride(3, 1), stride(9, 10)];
    assert_eq!(populate(&strides, 11), populate(&strides, 11));
}

#[test]
fn least_prime_where_the_sieve_changes_segments() {
    // the sieve is cut into segments of 983_040 numbers, and below 10_020 it
    // is read from a table; the search runs up to twice the number
    assert_eq!(least_prime_from(5_009), 5_009);
    assert_eq!(least_prime_from(5_010), 5_011);
    assert_eq!(least_prime_from(5_011), 5_011);
    assert_eq!(least_prime_from(10_019), 10_037);
    assert_eq!(least_prime_from(10_020), 10_037);
    assert_eq!(least_prime_from(10_021), 10_037);
    assert_eq!(least_prime_from(491_519), 491_527);
    assert_eq!(least_prime_from(491_520), 491_527);
    assert_eq!(least_prime_from(491_521), 491_527);
    assert_eq!(least_prime_from(983_039), 983_063);
    assert_eq!(least_prime_from(983_040), 983_063);
    assert_eq!(least_prime_from(983_041), 983_063);
    assert_eq!(least_prime_from(1_474_560), 1_474_579);
    assert_eq!(least_prime_from(1_966_079), 1_966_079);
    assert_eq!(least_prime_from(1_966_080), 1_966_123);
    assert_eq!(least_prime_from(1_966_081), 1_966_123);
}
