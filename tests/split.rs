use dyck::split::{
    is_valid_u64, left_branch_checked_u64, left_branch_u16, left_branch_u32, left_branch_u8,
    left_branch_usize, SplitError,
};
use dyck::bigint::{is_valid_big, left_branch_checked_big, left_branch_u128};
use dyck::{all_trees, left_branch_big, left_branch_u512, left_branch_u64};

/// The split found by reading the path from the top with a stack counter.
fn reference_split(s: u64) -> u64 {
    if s <= 1 {
        return 0;
    }
    let width = 64 - s.leading_zeros();
    let mut depth: i64 = 0;
    let mut i = width;
    let mut best = 0;
    while i > 1 {
        i -= 1;
        if (s >> i) & 1 == 1 {
            depth += 1;
        } else {
            depth -= 1;
        }
        if depth == 1 {
            best = i;
        }
    }
    1u64 << best
}

fn digits(mut v: u128) -> Vec<u32> {
    let mut d = Vec::new();
    while v > 0 {
        d.push(v as u32);
        v >>= 32;
    }
    d
}

fn value(d: &[u32]) -> u128 {
    d.iter().rev().fold(0u128, |acc, &x| (acc << 32) | x as u128)
}

fn join(l: u64, r: u64) -> u64 {
    let width = 64 - r.leading_zeros();
    ((l << width) | r) << 1
}

fn is_tree(s: u64) -> bool {
    if s == 0 {
        return false;
    }
    let width = 64 - s.leading_zeros();
    let mut depth: i64 = 0;
    for i in (0..width).rev() {
        depth += if (s >> i) & 1 == 1 { 1 } else { -1 };
        if depth < 1 {
            return false;
        }
    }
    depth == 1
}

#[test]
fn single_leaf_and_empty_have_no_split() {
    assert_eq!(left_branch_u64(0), 0);
    assert_eq!(left_branch_u64(1), 0);
    assert!(left_branch_big(&vec![]).is_empty());
    assert!(left_branch_big(&vec![1]).is_empty());
}

#[test]
fn right_leaf_splits_at_bit_two() {
    assert_eq!(left_branch_u64(0b110), 0b100);
    assert_eq!(left_branch_u64(0b11010), 0b100);
    assert_eq!(value(&left_branch_big(&vec![0b110])), 0b100);
}

#[test]
fn left_leaf_splits_at_top() {
    assert_eq!(left_branch_u64(0b11100), 0b10000);
    assert_eq!(left_branch_u64(0b111011000), 1 << 8);
    assert_eq!(value(&left_branch_big(&digits(0b111011000))), 1 << 8);
}

#[test]
fn internal_children_split_on_candidate() {
    // left: 110, right: 11100
    let s = join(0b110, 0b11100);
    assert_eq!(s, 0b110_11100_0);
    assert_eq!(left_branch_u64(s), 1 << 6);
    assert_eq!(value(&left_branch_big(&digits(s as u128))), 1 << 6);
}

#[test]
fn every_catalog_tree_agrees_across_representations() {
    let trees = all_trees();
    assert_eq!(trees.len(), 1 + (1..=16u64).map(catalan).sum::<u64>() as usize);
    for &t in trees.iter().filter(|t| t.count_ones() <= 11) {
        let s = t as u64;
        let narrow = left_branch_u64(s);
        assert_eq!(narrow, reference_split(s), "{:b}", s);
        assert_eq!(value(&left_branch_big(&digits(s as u128))), narrow as u128, "{:b}", s);
    }
}

fn catalan(leaves: u64) -> u64 {
    // number of binary tree shapes with the given number of leaves
    let n = leaves - 1;
    let mut c: u64 = 1;
    for k in 0..n {
        c = c * 2 * (2 * k + 1) / (k + 2);
    }
    c
}

#[test]
fn every_catalog_tree_splits_into_two_trees_that_rejoin() {
    for t in all_trees() {
        let s = t as u64;
        if s <= 1 {
            continue;
        }
        let b = left_branch_u64(s);
        let high = s / b;
        let low = (s % b) >> 1;
        assert!(is_tree(high), "{:b}", s);
        assert!(is_tree(low), "{:b}", s);
        assert_eq!(join(high, low), s);
        assert_eq!(high.count_ones() + low.count_ones(), s.count_ones());
    }
}

#[test]
fn catalog_paths_are_trees_with_at_most_sixteen_leaves() {
    let trees = all_trees();
    assert_eq!(trees[0], 0);
    for &t in &trees[1..] {
        assert!(is_tree(t as u64));
        assert!(t.count_ones() <= 16);
    }
}

#[test]
fn wide_path_splits_beyond_a_machine_word() {
    // forty leaves, each left child a leaf: 79 bits, the split on the top bit
    let n = 40u32;
    let path: u128 = ((1u128 << n) - 1) << (n - 1);
    let r = left_branch_big(&digits(path));
    assert_eq!(value(&r), 1u128 << 78);
    // the same shape as the right child of a two-leaf left child
    let joined = ((0b110u128 << 79) | path) << 1;
    let r = left_branch_big(&digits(joined));
    assert_eq!(value(&r), 1u128 << 80);
}

fn bytes(v: u128) -> Vec<u8> {
    let mut b = v.to_le_bytes().to_vec();
    b.resize(64, 0);
    b
}

fn bytes_value(b: &[u8]) -> u128 {
    assert!(b[16..].iter().all(|&x| x == 0));
    u128::from_le_bytes(b[..16].try_into().unwrap())
}

#[test]
fn wide_agrees_with_machine_word() {
    for t in all_trees().into_iter().filter(|t| t.count_ones() <= 9) {
        let s = t as u64;
        let r = left_branch_u512(&bytes(s as u128));
        assert_eq!(r.len(), 64);
        assert_eq!(bytes_value(&r), left_branch_u64(s) as u128, "{:b}", s);
    }
}

#[test]
fn wide_path_of_more_than_a_machine_word() {
    let n = 40u32;
    let path: u128 = ((1u128 << n) - 1) << (n - 1);
    assert_eq!(bytes_value(&left_branch_u512(&bytes(path))), 1u128 << 78);
    assert!(bytes_value(&left_branch_u512(&bytes(0))) == 0);
    assert!(bytes_value(&left_branch_u512(&bytes(1))) == 0);
    assert_eq!(bytes_value(&left_branch_u512(&bytes(0b110))), 0b100);
}

#[test]
fn narrow_widths_agree_with_machine_word() {
    for t in all_trees().into_iter().filter(|t| t.count_ones() <= 8) {
        let s = t as u64;
        let expected = left_branch_u64(s);
        assert_eq!(left_branch_u32(t) as u64, expected);
        assert_eq!(left_branch_usize(t as usize) as u64, expected);
        if s <= u16::MAX as u64 {
            assert_eq!(left_branch_u16(s as u16) as u64, expected);
        }
        if s <= u8::MAX as u64 {
            assert_eq!(left_branch_u8(s as u8) as u64, expected);
        }
    }
    assert_eq!(left_branch_u8(0b110), 0b100);
    assert_eq!(left_branch_u8(0b11100), 0b10000);
}

#[test]
fn checked_split_rejects_malformed_paths() {
    assert_eq!(left_branch_checked_u64(0b10), Err(SplitError::InvalidStructure));
    assert_eq!(left_branch_checked_u64(0b11), Err(SplitError::InvalidStructure));
    assert_eq!(left_branch_checked_u64(0b1100), Err(SplitError::InvalidStructure));
    assert_eq!(left_branch_checked_u64(0b1110), Err(SplitError::InvalidStructure));
    assert_eq!(left_branch_checked_u64(0), Ok(0));
    assert_eq!(left_branch_checked_u64(1), Ok(0));
    assert_eq!(left_branch_checked_u64(0b11100), Ok(0b10000));
    assert!(!is_valid_u64(0b1010));
    assert!(is_valid_u64(0b11010));
}

#[test]
fn checked_big_split_rejects_malformed_paths() {
    assert_eq!(left_branch_checked_big(&vec![0b10]), Err(SplitError::InvalidStructure));
    assert_eq!(left_branch_checked_big(&digits(1u128 << 70)), Err(SplitError::InvalidStructure));
    assert_eq!(left_branch_checked_big(&vec![0b11100]), Ok(vec![0b10000]));
    assert!(is_valid_big(&vec![]));
    assert!(!is_valid_big(&vec![0b111]));
}

#[test]
fn validity_matches_a_stack_count() {
    for s in 0u64..4096 {
        assert_eq!(is_valid_u64(s), s == 0 || is_tree(s), "{:b}", s);
        assert_eq!(is_valid_big(&digits(s as u128)), s == 0 || is_tree(s), "{:b}", s);
    }
}

#[test]
fn u128_agrees_with_machine_word_and_goes_beyond() {
    for t in all_trees().into_iter().filter(|t| t.count_ones() <= 8) {
        assert_eq!(left_branch_u128(t as u128), left_branch_u64(t as u64) as u128);
    }
    let n = 40u32;
    let path: u128 = ((1u128 << n) - 1) << (n - 1);
    assert_eq!(left_branch_u128(path), 1u128 << 78);
    let joined = ((0b110u128 << 79) | path) << 1;
    assert_eq!(left_branch_u128(joined), 1u128 << 80);
    assert_eq!(left_branch_u128(0), 0);
    assert_eq!(left_branch_u128(1), 0);
}
