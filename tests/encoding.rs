use dyck::{BoundedDyck, Dyck, UnboundedDyck};
use std::sync::Arc;

#[test]
fn bounded_zero_is_empty() {
    let z: BoundedDyck<u8> = BoundedDyck::zero();
    assert_eq!(z.path(), 0);
    assert_eq!(z.leaf_count(), 0);
}

#[test]
fn unbounded_zero_is_empty() {
    let z: UnboundedDyck<u8> = UnboundedDyck::zero();
    assert!(z.path().is_empty());
    assert_eq!(z.leaf_count(), 0);
}

#[test]
fn bounded_new_checks_leaf_count() {
    let leaves = Arc::new(vec!['a', 'b', 'c']);
    assert!(BoundedDyck::new(0b11010, leaves.clone()).is_some());
    assert!(BoundedDyck::new(0b1111, leaves.clone()).is_none());
    let exact = BoundedDyck::new(0b111, leaves.clone()).unwrap();
    assert_eq!(exact.path(), 0b111);
    assert_eq!(exact.leaf_count(), 3);
}

#[test]
fn unbounded_new_checks_leaf_count() {
    let leaves = Arc::new(vec![0u8; 33]);
    assert!(UnboundedDyck::new(vec![u32::MAX, 1], leaves.clone()).is_some());
    assert!(UnboundedDyck::new(vec![u32::MAX, 3], leaves.clone()).is_none());
}

#[test]
fn union_picks_bounded_for_two_words() {
    let leaves = Arc::new(vec![(); 2]);
    match Dyck::new(&[0b1, 0b1], leaves.clone()) {
        Some(Dyck::Bounded(b)) => assert_eq!(b.path(), (1u64 << 32) | 1),
        _ => panic!("expected a bounded encoding"),
    }
    assert!(Dyck::new(&[0b111, 0], leaves).is_none());
}

#[test]
fn union_picks_unbounded_for_three_words() {
    let leaves = Arc::new(vec![(); 3]);
    match Dyck::new(&[1, 2, 4], leaves.clone()) {
        Some(Dyck::UnboundedDyck(u)) => assert_eq!(u.path(), &vec![4, 2, 1]),
        _ => panic!("expected an unbounded encoding"),
    }
    assert!(Dyck::new(&[1, 3, 4], leaves).is_none());
}

#[test]
fn empty_word_list_is_the_empty_bounded_path() {
    let leaves: Arc<Vec<u8>> = Arc::new(vec![]);
    match Dyck::new(&[], leaves) {
        Some(Dyck::Bounded(b)) => assert_eq!(b.path(), 0),
        _ => panic!("expected a bounded encoding"),
    }
}
