use std::collections::BTreeSet;

use surch_index::roaring::RoaringDocSet;

const CHUNK_SHIFT: u32 = 16;
const CHUNK_SIZE: u32 = 1 << CHUNK_SHIFT;

fn naive_intersection(a: &[u32], b: &[u32]) -> Vec<u32> {
    let sa: BTreeSet<u32> = a.iter().copied().collect();
    let sb: BTreeSet<u32> = b.iter().copied().collect();
    sa.intersection(&sb).copied().collect()
}

fn roaring_intersection(a: &[u32], b: &[u32]) -> Vec<u32> {
    let ra = RoaringDocSet::from_sorted(a);
    let rb = RoaringDocSet::from_sorted(b);
    ra.intersect_for_each(&rb)
}

#[test]
fn roaring_intersection_matches_naive_oracle() {
    let mut a: Vec<u32> = Vec::new();
    let mut b: Vec<u32> = Vec::new();

    for d in 0..CHUNK_SIZE {
        if d % 2 == 0 {
            a.push(d);
        }
        if d % 3 == 0 {
            b.push(d);
        }
    }
    for d in [10u32, 200, 65000] {
        a.push((1 << CHUNK_SHIFT) | d);
    }
    for d in [1u32, 3, 5, 7, 9] {
        a.push((2 << CHUNK_SHIFT) | d);
    }
    for d in [2u32, 5, 7, 11] {
        b.push((2 << CHUNK_SHIFT) | d);
    }
    for d in 0..CHUNK_SIZE {
        if d % 2 == 1 {
            a.push((3 << CHUNK_SHIFT) | d);
        }
    }
    for d in [4u32, 5, 6, 7, 65535] {
        b.push((3 << CHUNK_SHIFT) | d);
    }
    a.sort_unstable();
    a.dedup();
    b.sort_unstable();
    b.dedup();

    assert_eq!(
        roaring_intersection(&a, &b),
        naive_intersection(&a, &b),
        "roaring intersection must be bit-identical to the naive oracle"
    );
}

#[test]
fn roaring_intersection_edge_cases() {
    assert_eq!(roaring_intersection(&[], &[1, 2, 3]), Vec::<u32>::new());
    assert_eq!(roaring_intersection(&[1, 2, 3], &[]), Vec::<u32>::new());
    assert_eq!(roaring_intersection(&[1, 2, 3], &[4, 5, 6]), Vec::<u32>::new());
    assert_eq!(roaring_intersection(&[1, 2, 3], &[1, 2, 3]), vec![1, 2, 3]);
    assert_eq!(roaring_intersection(&[7], &[7]), vec![7]);
    let a = [CHUNK_SIZE - 1, CHUNK_SIZE, CHUNK_SIZE + 1];
    let b = [CHUNK_SIZE - 1, CHUNK_SIZE + 1];
    assert_eq!(roaring_intersection(&a, &b), vec![CHUNK_SIZE - 1, CHUNK_SIZE + 1]);
}

#[test]
fn roaring_set_counts_its_members() {
    let set = RoaringDocSet::from_sorted(&[0, 5, 70_000, u32::MAX]);
    assert_eq!(set.len(), 4);
    assert!(!set.is_empty());
    assert!(RoaringDocSet::from_sorted(&[]).is_empty());
}

#[test]
fn roaring_intersection_is_symmetric_on_dense_chunks() {
    let a: Vec<u32> = (0..10_000).map(|d| d * 2).collect();
    let b: Vec<u32> = (0..9_000).map(|d| d * 3).collect();
    assert_eq!(roaring_intersection(&a, &b), roaring_intersection(&b, &a));
    assert_eq!(roaring_intersection(&a, &b), naive_intersection(&a, &b));
}
