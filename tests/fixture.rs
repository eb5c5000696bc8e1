use dyck::left_branch_u64;

#[test]
fn test_bed() {
    let structure_0 = 0b_1_11010_1101100_00_u64;

    let top_bit = |s: u64| ((!0_u64 << (u64::BITS - s.leading_zeros())) >> 1).wrapping_neg();
    let left_split = ((!structure_0 >> 1) & structure_0 & (structure_0 << 1) & !top_bit(structure_0)) << 1;
    assert_eq!(left_split, 0b_0__00001_0010000_00);

    let structure_0 = 0b_1_11010_1101100_00_u64;

    let top_bit = |s: u64| ((!0_u64 << (u64::BITS - s.leading_zeros())) >> 1).wrapping_neg();
    let left_split = !structure_0 & (structure_0 << 1) & (structure_0 << 2);

    assert_eq!(left_split, 0b_1_0__00001_0010000_00, "{:b}", left_split);

    assert_eq!(
        left_split & !top_bit(left_split),
        0b_0__00001_0010000_00,
        "{:b}",
        left_split & !top_bit(left_split)
    );
}

#[test]
fn fixture_splits_at_top_leaf() {
    // the root's left child is the single leaf on top, the rest is its right child
    assert_eq!(left_branch_u64(0b_1_11010_1101100_00), 1 << 14);
}
