use core::ops::Range;
use taking_game::bitset::Bitset128;
use taking_game::vertex_set::VertexSet;

#[test]
fn test_len_and_is_empty() {
    let mut b = Bitset128(0);
    assert!(b.is_empty());
    assert_eq!(b.len(), 0);

    b.0 = 0b1011;
    assert!(!b.is_empty());
    assert_eq!(b.len(), 3);
}

#[test]
fn test_iter() {
    let b = Bitset128(0b10110);
    let collected: Vec<usize> = b.iter().collect();
    assert_eq!(collected, vec![1, 2, 4]);
}

#[test]
fn test_union() {
    let mut a = Bitset128(0b1010);
    let b = Bitset128(0b0110);
    a.union(&b);
    assert_eq!(a.0, 0b1110);
}

#[test]
fn test_is_subset_and_intersects() {
    let a = Bitset128(0b1010);
    let b = Bitset128(0b1110);
    assert!(a.is_subset(&b));
    assert!(!b.is_subset(&a));
    assert!(a.intersects(&b));

    let c = Bitset128(0b0001);
    assert!(!a.intersects(&c));
}

#[test]
fn set_test_apply_node_map() {
    let mut b = Bitset128(0b1011); // bits 0,1,3
    b.apply_node_map(&[3, 2, 1, 0]); // reverse order
    assert_eq!(b.0, 0b1101); // bits 0,2,3
}

#[test]
fn test_is_flattened() {
    let a = Bitset128(0b111); // 0,1,2
    let b = Bitset128(0b101); // 0,2
    assert!(a.is_flattened());
    assert!(!b.is_flattened());
}

#[test]
fn test_partition() {
    let b = Bitset128(0b1111_1010); // bits 1,3,4,5,7
    let partitions: [Range<usize>; 2] = [0..4, 4..8];
    let parts = b.partition(&partitions);
    assert_eq!(parts[0].0, 0b1010); // bits 1,3
    assert_eq!(parts[1].0, 0b11110000 & b.0); // bits 4,5,7
}

#[test]
fn test_pop() {
    let mut b = Bitset128(0b10110);
    assert_eq!(b.pop(), Some(4));
    assert_eq!(b.pop(), Some(2));
    assert_eq!(b.pop(), Some(1));
    assert_eq!(b.pop(), None);
    assert!(b.is_empty());
}

#[test]
fn test_contains() {
    let b = Bitset128::from_slice(&[1, 2, 3, 5, 8, 13, 21, 34]);
    assert!(b.contains(&1));
    assert!(b.contains(&34));
    assert!(!b.contains(&17));
}

#[test]
fn default_is_empty_and_new_keeps_the_mask() {
    assert_eq!(Bitset128::default().0, 0);
    assert_eq!(Bitset128::new(0b1001).0, 0b1001);
    assert_eq!(Bitset128::new(0b1001).to_vec(), vec![0, 3]);
}

#[test]
fn insert_minus_and_intersection() {
    let mut b = Bitset128::default();
    b.insert(127);
    b.insert(0);
    b.insert(64);
    assert_eq!(b.to_vec(), vec![0, 64, 127]);
    assert_eq!(b.len(), 3);
    let c = Bitset128::from_slice(&[64, 5]);
    assert_eq!(b.minus(&c).to_vec(), vec![0, 127]);
    assert_eq!(b.intersection(&c).to_vec(), vec![64]);
    assert!(!b.contains(&128));
    assert!(!b.contains(&1000));
}

#[test]
fn flattened_edge_cases() {
    assert!(Bitset128(0).is_flattened());
    assert!(Bitset128(u128::MAX).is_flattened());
    assert!(!Bitset128(1u128 << 127).is_flattened());
    assert_eq!(Bitset128(u128::MAX).len(), 128);
}

#[test]
fn partition_with_full_and_empty_ranges() {
    let b = Bitset128(u128::MAX);
    let partitions: [Range<usize>; 3] = [0..128, 5..5, 120..128];
    let parts = b.partition(&partitions);
    assert_eq!(parts[0].0, u128::MAX);
    assert_eq!(parts[1].0, 0);
    assert_eq!(parts[2].to_vec(), vec![120, 121, 122, 123, 124, 125, 126, 127]);
}

#[test]
fn cursor_hands_out_lowest_first() {
    let mut it = Bitset128::from_slice(&[9, 3, 127]).iter();
    assert_eq!(it.next(), Some(3));
    assert_eq!(it.next(), Some(9));
    assert_eq!(it.next(), Some(127));
    assert_eq!(it.next(), None);
    assert_eq!(it.next(), None);
}

#[test]
fn node_map_drops_what_is_not_named() {
    let mut b = Bitset128::from_slice(&[2, 4, 6]);
    b.apply_node_map(&[2, 4]);
    assert_eq!(b.to_vec(), vec![0, 1]);
    let mut c = Bitset128::from_slice(&[1]);
    c.apply_node_map(&[500, 1]);
    assert_eq!(c.to_vec(), vec![1]);
}

fn union_size<S: VertexSet>(a: &[usize], b: &[usize]) -> usize {
    let mut s = S::from_slice(a);
    s.union(&S::from_slice(b));
    s.len()
}

#[test]
fn dense_set_through_the_trait() {
    assert_eq!(union_size::<Bitset128>(&[1, 2, 3], &[3, 4]), 4);
    let mut s = <Bitset128 as VertexSet>::empty();
    assert!(VertexSet::is_empty(&s));
    VertexSet::insert(&mut s, 9);
    VertexSet::insert(&mut s, 4);
    assert_eq!(VertexSet::to_vec(&s), vec![4, 9]);
    assert_eq!(VertexSet::pop(&mut s), Some(9));
    assert!(VertexSet::is_flattened(&<Bitset128 as VertexSet>::from_slice(&[0, 1])));
}
