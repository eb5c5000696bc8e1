//! The split-finder on an arbitrary-precision path, held as base 2^32 digits,
//! least significant first, and computed with `num_bigint::BigUint`.
use crate::model::{
    bit, bit_len, depth, is_candidate, is_structure, is_tree, lemma_found, lemma_popcount_le_bit_len,
    lemma_prefix_succ, lemma_prefix_zero, lemma_split_point, lemma_top_split, lemma_unit_depth,
    popcount, prefix, prefixes_positive, split_bit, split_point,
};
use crate::split::SplitError;
use num_bigint::BigUint;
use vstd::arithmetic::power2::pow2;
use vstd::prelude::*;

verus! {

/// The number whose base 2^32 digits, least significant first, are `d`.
pub open spec fn digits_value(d: Seq<u32>) -> nat
    decreases d.len(),
{
    if d.len() == 0 {
        0
    } else {
        d[0] as nat + pow2(32) * digits_value(d.subrange(1, d.len() as int))
    }
}

/// Relies on `BigUint::new` and `BigUint::count_ones`: the number of one bits.
#[verifier::external_body]
pub(crate) fn big_count_ones(d: &Vec<u32>) -> (r: u64)
    ensures
        r as nat == popcount(digits_value(d@)),
{
    BigUint::new(d.clone()).count_ones()
}

/// Relies on `BigUint::new` and `BigUint::bits`: the fewest bits that express
/// the number.
#[verifier::external_body]
fn big_bits(d: &Vec<u32>) -> (r: u64)
    ensures
        r as nat == bit_len(digits_value(d@)),
{
    BigUint::new(d.clone()).bits()
}

/// The low digit and the rest of a digit sequence.
proof fn lemma_digits_split(d: Seq<u32>)
    requires
        d.len() > 0,
    ensures
        prefix(digits_value(d), 32) == digits_value(d.subrange(1, d.len() as int)),
        digits_value(d) % pow2(32) == d[0] as nat,
{
    let x = digits_value(d.subrange(1, d.len() as int));
    let b = pow2(32);
    vstd::arithmetic::power2::lemma2_to64();
    assert((d[0] as nat + b * x) / b == x && (d[0] as nat + b * x) % b == d[0] as nat)
        by (nonlinear_arith)
        requires
            b == 0x1_0000_0000,
            d[0] < b,
    ;
}

/// Bit `i` of a number below 2^32 plus a multiple of 2^32 is bit `i` of the
/// low part, for `i < 32`.
proof fn lemma_low_bit(a: nat, x: nat, i: nat)
    requires
        a < pow2(32),
        i < 32,
    ensures
        bit(a + pow2(32) * x, i) == bit(a, i),
{
    let p = pow2(i);
    let q = pow2((32 - i) as nat);
    vstd::arithmetic::power2::lemma_pow2_adds(i, (32 - i) as nat);
    vstd::arithmetic::power2::lemma_pow2_pos(i);
    vstd::arithmetic::power2::lemma_pow2_unfold((32 - i) as nat);
    let q1 = pow2((32 - i - 1) as nat);
    assert((a + p * q * x) / p == a / p + q * x) by (nonlinear_arith)
        requires
            p > 0,
    ;
    vstd::arithmetic::div_mod::lemma_mod_multiples_vanish((q1 * x) as int, (a / p) as int, 2);
    assert(2 * (q1 * x) + a / p == a / p + q * x) by (nonlinear_arith)
        requires
            q == 2 * q1,
    ;
    assert(pow2(32) == p * q);
    assert(p * q * x == pow2(32) * x) by (nonlinear_arith)
        requires
            pow2(32) == p * q,
    ;
}

/// Bit `i` of the number with digits `d` is bit `i % 32` of digit `i / 32`.
proof fn lemma_digits_bit(d: Seq<u32>, i: nat)
    ensures
        bit(digits_value(d), i) == (i / 32 < d.len() && bit(d[(i / 32) as int] as nat, i % 32)),
    decreases d.len(),
{
    if d.len() == 0 {
        vstd::arithmetic::power2::lemma_pow2_pos(i);
        assert(0nat / pow2(i) == 0) by (nonlinear_arith)
            requires
                pow2(i) > 0,
        ;
    } else {
        let rest = d.subrange(1, d.len() as int);
        if i < 32 {
            vstd::arithmetic::power2::lemma2_to64();
            lemma_low_bit(d[0] as nat, digits_value(rest), i);
        } else {
            lemma_digits_split(d);
            crate::model::lemma_prefix_add(digits_value(d), 32, (i - 32) as nat);
            lemma_digits_bit(rest, (i - 32) as nat);
            assert((i - 32) as nat / 32 == i / 32 - 1);
            assert((i - 32) as nat % 32 == i % 32);
        }
    }
}

/// Whether bit `i` is set in the number with digits `d`.
fn digits_bit(d: &Vec<u32>, i: u64) -> (r: bool)
    ensures
        r == bit(digits_value(d@), i as nat),
{
    proof {
        lemma_digits_bit(d@, i as nat);
    }
    let q = i / 32;
    if q >= d.len() as u64 {
        return false;
    }
    let digit = d[q as usize];
    let k = (i % 32) as u32;
    proof {
        vstd::bits::lemma_u32_shr_is_div(digit, k);
        let y = digit >> k;
        assert((y & 1 == 1) == (y % 2 == 1)) by (bit_vector);
    }
    (digit >> k) & 1 == 1
}

/// Relies on `BigUint::new`, `>>` on `BigUint` and `BigUint::to_u32_digits`:
/// the number shifted right by `k` bits.
#[verifier::external_body]
fn big_shr(d: &Vec<u32>, k: u64) -> (r: Vec<u32>)
    ensures
        digits_value(r@) == prefix(digits_value(d@), k as nat),
{
    (BigUint::new(d.clone()) >> k).to_u32_digits()
}

/// Relies on `BigUint::from`, `<<` on `BigUint` and `BigUint::to_u32_digits`:
/// one shifted left by `k` bits.
#[verifier::external_body]
fn big_pow2(k: u64) -> (r: Vec<u32>)
    ensures
        digits_value(r@) == pow2(k as nat),
{
    (BigUint::from(1u32) << k).to_u32_digits()
}

proof fn lemma_one_digit(x: u32)
    ensures
        digits_value(seq![x]) == x as nat,
{
    let s = seq![x];
    assert(s.len() == 1);
    assert(s[0] == x);
    assert(s.subrange(1, 1) =~= Seq::<u32>::empty());
    assert(digits_value(Seq::<u32>::empty()) == 0);
    assert(digits_value(s) == s[0] as nat + pow2(32) * digits_value(s.subrange(1, 1)));
}

/// The split bit of a path held as base 2^32 digits: zero for zero or one
/// leaf, else the lowest bit of the root's left subtree.
///
/// The same search as on a machine word: bit two when the right subtree is a
/// single leaf, else the first `011` window from the low end whose prefix is
/// one whole subtree, else the top bit.
pub fn left_branch_big(structure: &Vec<u32>) -> (r: Vec<u32>)
    requires
        is_structure(digits_value(structure@)),
    ensures
        digits_value(r@) == split_bit(digits_value(structure@)),
{
    let ghost n = digits_value(structure@);
    let ones = big_count_ones(structure);
    if ones <= 1 {
        proof {
            if n > 0 {
                crate::model::lemma_small_tree(n);
            }
        }
        return Vec::new();
    }
    proof {
        lemma_unit_depth();
        assert(n > 1);
    }
    if digits_bit(structure, 1) && !digits_bit(structure, 0) {
        proof {
            lemma_prefix_zero(n);
            lemma_prefix_succ(n, 0);
            assert(n % 4 == 2);
            crate::model::lemma_trivial_split(n);
            vstd::arithmetic::power2::lemma2_to64();
        }
        let four: Vec<u32> = vec![4];
        proof {
            assert(four@ =~= seq![4u32]);
            lemma_one_digit(4);
        }
        return four;
    }
    proof {
        lemma_prefix_zero(n);
        lemma_prefix_succ(n, 0);
        lemma_split_point(n);
    }
    let ghost sp = split_point(n);
    let bits = big_bits(structure);
    let top = bits - 1;
    let mut i: u64 = 2;
    while i < top
        invariant
            n == digits_value(structure@),
            is_tree(n),
            n > 1,
            n % 4 != 2,
            sp == split_point(n),
            1 <= sp <= top,
            top + 1 == bit_len(n),
            depth(prefix(n, sp)) == 1,
            2 <= i,
            forall|k: nat|
                2 <= k < i && k < top && is_candidate(n, k) ==> depth(#[trigger] prefix(n, k))
                    != 1,
        decreases top - i,
    {
        if !digits_bit(structure, i) && digits_bit(structure, i - 1) && digits_bit(structure, i - 2) {
            let rest = big_shr(structure, i);
            let rb = big_bits(&rest);
            let rc = big_count_ones(&rest);
            if rb as u128 + 1 == 2 * (rc as u128) {
                proof {
                    if is_candidate(n, sp) && sp < i {
                        assert(depth(prefix(n, sp)) != 1);
                    }
                    lemma_found(n, i as nat);
                }
                return big_pow2(i);
            }
        }
        i = i + 1;
    }
    proof {
        if is_candidate(n, sp) {
            if sp < top {
                assert(depth(prefix(n, sp)) != 1);
            }
            crate::model::lemma_top_bit(n);
        }
        lemma_top_split(n);
    }
    big_pow2(top)
}

/// Whether the path with base 2^32 digits `d` is the path of a tree, or zero.
pub fn is_valid_big(d: &Vec<u32>) -> (r: bool)
    ensures
        r == is_structure(digits_value(d@)),
{
    let mut x: Vec<u32> = d.clone();
    proof {
        assert(x@ == d@);
    }
    let mut width = big_bits(&x);
    while width > 0
        invariant
            prefixes_positive(digits_value(d@)) == prefixes_positive(digits_value(x@)),
            width as nat == bit_len(digits_value(x@)),
        decreases width,
    {
        let ones = big_count_ones(&x);
        proof {
            lemma_popcount_le_bit_len(digits_value(x@));
        }
        if 2 * (ones as u128) < width as u128 + 1 {
            return false;
        }
        let ghost before = digits_value(x@);
        x = big_shr(&x, 1);
        proof {
            lemma_prefix_succ(before, 0);
            lemma_prefix_zero(before);
        }
        width = big_bits(&x);
    }
    let width = big_bits(d);
    if width == 0 {
        return true;
    }
    let ones = big_count_ones(d);
    2 * (ones as u128) == width as u128 + 1
}

/// The split bit of the path with base 2^32 digits `d`, or `InvalidStructure`
/// exactly when that path is neither zero nor the path of a tree.
pub fn left_branch_checked_big(d: &Vec<u32>) -> (r: Result<Vec<u32>, SplitError>)
    ensures
        r is Ok <==> is_structure(digits_value(d@)),
        r matches Ok(b) ==> digits_value(b@) == split_bit(digits_value(d@)),
        r matches Err(e) ==> e == SplitError::InvalidStructure,
{
    if is_valid_big(d) {
        Ok(left_branch_big(d))
    } else {
        Err(SplitError::InvalidStructure)
    }
}

proof fn lemma_digits_suffix_le(d: Seq<u32>, i: int)
    requires
        0 <= i <= d.len(),
    ensures
        digits_value(d.subrange(i, d.len() as int)) <= digits_value(d),
    decreases i,
{
    if i > 0 {
        lemma_digits_suffix_le(d, i - 1);
        let a = d.subrange(i - 1, d.len() as int);
        let rest = d.subrange(i, d.len() as int);
        assert(a.subrange(1, a.len() as int) =~= rest);
        vstd::arithmetic::power2::lemma2_to64();
        assert(digits_value(a) == a[0] as nat + pow2(32) * digits_value(rest));
        assert(digits_value(rest) <= a[0] as nat + pow2(32) * digits_value(rest))
            by (nonlinear_arith)
            requires
                pow2(32) >= 1,
        ;
    } else {
        assert(d.subrange(0, d.len() as int) =~= d);
    }
}

/// The base 2^32 digits of `s`, least significant first.
fn digits_of_u128(s: u128) -> (r: Vec<u32>)
    ensures
        digits_value(r@) == s as nat,
{
    let a = s as u32;
    let b = (s >> 32u128) as u32;
    let c = (s >> 64u128) as u32;
    let d = (s >> 96u128) as u32;
    let r: Vec<u32> = vec![a, b, c, d];
    proof {
        vstd::arithmetic::power2::lemma2_to64();
        let v = r@;
        assert(v =~= seq![a, b, c, d]);
        let v1 = v.subrange(1, 4);
        let v2 = v1.subrange(1, 3);
        let v3 = v2.subrange(1, 2);
        let v4 = v3.subrange(1, 1);
        assert(digits_value(v4) == 0);
        assert(digits_value(v3) == d as nat);
        assert(digits_value(v2) == c as nat + pow2(32) * (d as nat));
        assert(digits_value(v1) == b as nat + pow2(32) * (c as nat + pow2(32) * (d as nat)));
        assert(s == a as u128 + 0x1_0000_0000u128 * (b as u128 + 0x1_0000_0000u128 * (c as u128
            + 0x1_0000_0000u128 * d as u128))) by (bit_vector)
            requires
                a == s as u32,
                b == (s >> 32u128) as u32,
                c == (s >> 64u128) as u32,
                d == (s >> 96u128) as u32,
        ;
    }
    r
}

/// The number with digits `d`, which is below 2^128.
fn u128_of_digits(d: &Vec<u32>) -> (r: u128)
    requires
        digits_value(d@) <= u128::MAX,
    ensures
        r as nat == digits_value(d@),
{
    let mut acc: u128 = 0;
    let mut i: usize = d.len();
    proof {
        assert(d@.subrange(d@.len() as int, d@.len() as int).len() == 0);
    }
    while i > 0
        invariant
            i <= d@.len(),
            digits_value(d@) <= u128::MAX,
            acc as nat == digits_value(d@.subrange(i as int, d@.len() as int)),
        decreases i,
    {
        let ghost tail = d@.subrange(i - 1, d@.len() as int);
        proof {
            assert(tail.subrange(1, tail.len() as int) =~= d@.subrange(i as int, d@.len() as int));
            lemma_digits_suffix_le(d@, i - 1);
            vstd::arithmetic::power2::lemma2_to64();
        }
        acc = acc * 0x1_0000_0000 + d[i - 1] as u128;
        i = i - 1;
    }
    proof {
        assert(d@.subrange(0, d@.len() as int) =~= d@);
    }
    acc
}

/// The split bit of a path held in a `u128`, found on its base 2^32 digits:
/// zero for zero or one leaf, else the lowest bit of the root's left subtree.
pub fn left_branch_u128(s: u128) -> (r: u128)
    requires
        is_structure(s as nat),
    ensures
        r as nat == split_bit(s as nat),
{
    let d = digits_of_u128(s);
    let b = left_branch_big(&d);
    proof {
        crate::model::split_bit_le(s as nat);
    }
    u128_of_digits(&b)
}

} // verus!
