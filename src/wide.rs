//! The split-finder on a 512-bit path, held as 64 bytes, least significant
//! first, and computed with `bnum::types::U512`.
use crate::model::{
    bit, bit_len, depth, is_candidate, is_structure, is_tree, lemma_bit_len_below, lemma_found,
    lemma_prefix_succ, lemma_prefix_zero, lemma_split_point,
    lemma_top_split, lemma_unit_depth, popcount, prefix, split_bit, split_point,
};
use bnum::types::U512;
use vstd::arithmetic::power2::{lemma_pow2_adds, lemma_pow2_pos, pow2};
use vstd::prelude::*;

verus! {

/// Number of bytes of a wide path.
pub const WIDE_BYTES: usize = 64;

/// The number whose base 256 digits, least significant first, are `b`.
pub open spec fn bytes_value(b: Seq<u8>) -> nat
    decreases b.len(),
{
    if b.len() == 0 {
        0
    } else {
        b[0] as nat + 256 * bytes_value(b.subrange(1, b.len() as int))
    }
}

/// Relies on `U512::from_le_bytes` and `U512::count_ones`: the number of ones.
#[verifier::external_body]
fn wide_count_ones(b: &Vec<u8>) -> (r: u32)
    requires
        b@.len() == WIDE_BYTES,
    ensures
        r as nat == popcount(bytes_value(b@)),
{
    let bytes: [u8; 64] = b.as_slice().try_into().unwrap();
    U512::from_le_bytes(bytes).count_ones()
}

/// Relies on `U512::from_le_bytes` and `U512::bit_width`: the fewest bits that
/// express the number.
#[verifier::external_body]
fn wide_bit_width(b: &Vec<u8>) -> (r: u32)
    requires
        b@.len() == WIDE_BYTES,
    ensures
        r as nat == bit_len(bytes_value(b@)),
{
    let bytes: [u8; 64] = b.as_slice().try_into().unwrap();
    U512::from_le_bytes(bytes).bit_width()
}

/// Relies on `U512::from_le_bytes` and `U512::bit`: whether bit `i` is set.
#[verifier::external_body]
fn wide_bit(b: &Vec<u8>, i: u32) -> (r: bool)
    requires
        b@.len() == WIDE_BYTES,
        i < 512,
    ensures
        r == bit(bytes_value(b@), i as nat),
{
    let bytes: [u8; 64] = b.as_slice().try_into().unwrap();
    U512::from_le_bytes(bytes).bit(i)
}

/// Relies on `U512::from_le_bytes`, `>>` on `U512` and `U512::to_le_bytes`:
/// the number shifted right by `k` bits.
#[verifier::external_body]
fn wide_shr(b: &Vec<u8>, k: u32) -> (r: Vec<u8>)
    requires
        b@.len() == WIDE_BYTES,
        k < 512,
    ensures
        r@.len() == WIDE_BYTES,
        bytes_value(r@) == prefix(bytes_value(b@), k as nat),
{
    let bytes: [u8; 64] = b.as_slice().try_into().unwrap();
    (U512::from_le_bytes(bytes) >> k).to_le_bytes().to_vec()
}

/// Relies on `U512::from_le_bytes`, `<<` on `U512` and `U512::to_le_bytes`:
/// the number shifted left by `k` bits, within 512 bits.
#[verifier::external_body]
fn wide_shl(b: &Vec<u8>, k: u32) -> (r: Vec<u8>)
    requires
        b@.len() == WIDE_BYTES,
        k < 512,
    ensures
        r@.len() == WIDE_BYTES,
        bytes_value(r@) == (bytes_value(b@) * pow2(k as nat)) % pow2(512),
{
    let bytes: [u8; 64] = b.as_slice().try_into().unwrap();
    (U512::from_le_bytes(bytes) << k).to_le_bytes().to_vec()
}

proof fn lemma_bytes_bound(b: Seq<u8>)
    ensures
        bytes_value(b) < pow2(8 * b.len()),
    decreases b.len(),
{
    if b.len() == 0 {
        vstd::arithmetic::power2::lemma2_to64();
    } else {
        let rest = b.subrange(1, b.len() as int);
        lemma_bytes_bound(rest);
        vstd::arithmetic::power2::lemma2_to64();
        lemma_pow2_adds(8, 8 * rest.len());
        assert(8 * b.len() == 8 + 8 * rest.len());
        let p = pow2(8 * rest.len());
        assert(b[0] as nat + 256 * bytes_value(rest) < 256 * p) by (nonlinear_arith)
            requires
                bytes_value(rest) < p,
                b[0] < 256,
        ;
    }
}

/// Bytes that are zero but for the lowest one.
proof fn lemma_low_byte(b: Seq<u8>)
    requires
        forall|i: int| 1 <= i < b.len() ==> b[i] == 0,
    ensures
        bytes_value(b) == if b.len() == 0 { 0 } else { b[0] as nat },
    decreases b.len(),
{
    if b.len() > 1 {
        let rest = b.subrange(1, b.len() as int);
        assert forall|i: int| 1 <= i < rest.len() implies rest[i] == 0 by {
            assert(rest[i] == b[i + 1]);
        }
        lemma_low_byte(rest);
        assert(rest[0] == b[1]);
        assert(bytes_value(rest) == 0);
    } else if b.len() == 1 {
        assert(b.subrange(1, 1).len() == 0);
        assert(bytes_value(b.subrange(1, 1)) == 0);
    }
}

/// The 64 bytes of a small number.
fn wide_from_byte(x: u8) -> (r: Vec<u8>)
    ensures
        r@.len() == WIDE_BYTES,
        bytes_value(r@) == x as nat,
{
    let mut r: Vec<u8> = Vec::new();
    r.push(x);
    while r.len() < WIDE_BYTES
        invariant
            1 <= r@.len() <= WIDE_BYTES,
            r@[0] == x,
            forall|i: int| 1 <= i < r@.len() ==> r@[i] == 0,
        decreases WIDE_BYTES - r.len(),
    {
        r.push(0);
    }
    proof {
        lemma_low_byte(r@);
    }
    r
}

/// One shifted left by `k < 512` bits.
fn wide_pow2(k: u32) -> (r: Vec<u8>)
    requires
        k < 512,
    ensures
        r@.len() == WIDE_BYTES,
        bytes_value(r@) == pow2(k as nat),
{
    let one = wide_from_byte(1);
    let r = wide_shl(&one, k);
    proof {
        vstd::arithmetic::power2::lemma_pow2_strictly_increases(k as nat, 512);
        lemma_pow2_pos(k as nat);
        vstd::arithmetic::div_mod::lemma_small_mod(pow2(k as nat), pow2(512));
    }
    r
}

/// The split bit of a path held in 64 bytes, least significant first: zero
/// for zero or one leaf, else the lowest bit of the root's left subtree.
///
/// The same search as on a machine word: bit two when the right subtree is a
/// single leaf, else the first `011` window from the low end whose prefix is
/// one whole subtree, else the top bit.
pub fn left_branch_u512(structure: &Vec<u8>) -> (r: Vec<u8>)
    requires
        structure@.len() == WIDE_BYTES,
        is_structure(bytes_value(structure@)),
    ensures
        r@.len() == WIDE_BYTES,
        bytes_value(r@) == split_bit(bytes_value(structure@)),
{
    let ghost n = bytes_value(structure@);
    proof {
        lemma_bytes_bound(structure@);
        lemma_bit_len_below(n, 512);
    }
    let ones = wide_count_ones(structure);
    if ones <= 1 {
        proof {
            if n > 0 {
                crate::model::lemma_small_tree(n);
            }
        }
        return wide_from_byte(0);
    }
    proof {
        lemma_unit_depth();
        assert(n > 1);
    }
    if wide_bit(structure, 1) && !wide_bit(structure, 0) {
        proof {
            lemma_prefix_zero(n);
            lemma_prefix_succ(n, 0);
            assert(n % 4 == 2);
            crate::model::lemma_trivial_split(n);
            vstd::arithmetic::power2::lemma2_to64();
        }
        return wide_from_byte(4);
    }
    proof {
        lemma_prefix_zero(n);
        lemma_prefix_succ(n, 0);
        lemma_split_point(n);
    }
    let ghost sp = split_point(n);
    let bits = wide_bit_width(structure);
    let top = bits - 1;
    let mut i: u32 = 2;
    while i < top
        invariant
            structure@.len() == WIDE_BYTES,
            n == bytes_value(structure@),
            is_tree(n),
            n > 1,
            n % 4 != 2,
            sp == split_point(n),
            1 <= sp <= top,
            top + 1 == bit_len(n),
            bit_len(n) <= 512,
            depth(prefix(n, sp)) == 1,
            2 <= i,
            forall|k: nat|
                2 <= k < i && k < top && is_candidate(n, k) ==> depth(#[trigger] prefix(n, k))
                    != 1,
        decreases top - i,
    {
        if !wide_bit(structure, i) && wide_bit(structure, i - 1) && wide_bit(structure, i - 2) {
            let rest = wide_shr(structure, i);
            let rb = wide_bit_width(&rest);
            let rc = wide_count_ones(&rest);
            if rb as u64 + 1 == 2 * (rc as u64) {
                proof {
                    if is_candidate(n, sp) && sp < i {
                        assert(depth(prefix(n, sp)) != 1);
                    }
                    lemma_found(n, i as nat);
                }
                return wide_pow2(i);
            }
        }
        i = i + 1;
    }
    proof {
        if is_candidate(n, sp) {
            if sp < top {
                assert(depth(prefix(n, sp)) != 1);
            }
            crate::model::lemma_top_bit(n);
        }
        lemma_top_split(n);
    }
    wide_pow2(top)
}

} // verus!
