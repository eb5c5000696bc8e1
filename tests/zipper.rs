use dyck::zipper::DyckZipper;
use dyck::BoundedDyck;
use std::sync::Arc;

fn encoding(path: u64, leaves: usize) -> BoundedDyck<usize> {
    BoundedDyck::new(path, Arc::new((0..leaves).collect())).unwrap()
}

#[test]
fn root_needs_a_tree() {
    assert!(DyckZipper::root(&encoding(0, 0)).is_none());
    assert!(DyckZipper::root(&encoding(0b10, 1)).is_none());
    let z = DyckZipper::root(&encoding(0b11010, 3)).unwrap();
    assert_eq!(z.offset(), 0);
    assert_eq!(z.subtree(), 0b11010);
}

#[test]
fn steps_walk_down_to_the_leaves() {
    // ((a b) c): left child 110 at offset 2, right child the leaf at offset 1
    let root = DyckZipper::root(&encoding(0b11010, 3)).unwrap();
    let left = root.step_left().unwrap();
    assert_eq!((left.subtree(), left.offset()), (0b110, 2));
    let right = root.step_right().unwrap();
    assert_eq!((right.subtree(), right.offset()), (0b1, 1));
    assert!(right.is_leaf());
    assert!(right.step_left().is_none());
    assert!(right.step_right().is_none());
    let ll = left.step_left().unwrap();
    let lr = left.step_right().unwrap();
    assert_eq!((ll.subtree(), ll.offset()), (1, 4));
    assert_eq!((lr.subtree(), lr.offset()), (1, 3));
}

#[test]
fn steps_follow_the_fixture_tree() {
    let path = 0b_1_11010_1101100_00_u64;
    let root = DyckZipper::root(&encoding(path, 8)).unwrap();
    let left = root.step_left().unwrap();
    assert_eq!((left.subtree(), left.offset()), (1, 14));
    let right = root.step_right().unwrap();
    assert_eq!((right.subtree(), right.offset()), (0b11010_1101100_0, 1));
    // every cursor shows the bits of the path at its offset
    for z in [left, right] {
        let width = 64 - z.subtree().leading_zeros();
        assert_eq!((path >> z.offset()) & ((1 << width) - 1), z.subtree());
    }
}

#[test]
fn leaves_come_out_in_order() {
    // ((a b) c) over the leaves 10, 11, 12
    let enc = BoundedDyck::new(0b11010, Arc::new(vec![10, 11, 12])).unwrap();
    let root = DyckZipper::root(&enc).unwrap();
    assert_eq!(root.leaf(&enc), None);
    assert_eq!(root.leaf_index(&enc), None);
    let left = root.step_left().unwrap();
    let a = left.step_left().unwrap();
    let b = left.step_right().unwrap();
    let c = root.step_right().unwrap();
    assert_eq!(a.leaf_index(&enc), Some(0));
    assert_eq!(b.leaf_index(&enc), Some(1));
    assert_eq!(c.leaf_index(&enc), Some(2));
    assert_eq!(a.leaf(&enc), Some(&10));
    assert_eq!(b.leaf(&enc), Some(&11));
    assert_eq!(c.leaf(&enc), Some(&12));
}

#[test]
fn leaf_on_the_top_bit_of_the_longest_path() {
    // a leaf joined to a right comb of 31 leaves: 63 bits, the leaf on bit 62
    let comb: u64 = ((1u64 << 31) - 1) << 30;
    let path = ((1u64 << 61) | comb) << 1;
    let enc = BoundedDyck::new(path, Arc::new((0..32).collect::<Vec<u32>>())).unwrap();
    let root = DyckZipper::root(&enc).unwrap();
    let top = root.step_left().unwrap();
    assert_eq!(top.offset(), 62);
    assert_eq!(top.leaf(&enc), Some(&0));
    let mut z = root.step_right().unwrap();
    let mut expected = 1;
    while let Some(left) = z.step_left() {
        assert_eq!(left.leaf(&enc), Some(&expected));
        expected += 1;
        z = z.step_right().unwrap();
    }
    assert_eq!(z.leaf(&enc), Some(&31));
}
