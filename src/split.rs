//! The split-finder on a native machine word.
use crate::model::{
    bit, bit_len, depth, is_candidate, is_structure, is_tree, lemma_found, lemma_popcount_le_bit_len,
    lemma_split_point, lemma_top_split, prefixes_positive, lemma_trivial_split, popcount, prefix, split_bit, split_point,
};
use vstd::arithmetic::power2::pow2;
use vstd::bits::{lemma_u64_pow2_no_overflow, lemma_u64_shl_is_mul, lemma_u64_shr_is_div};
use vstd::prelude::*;
use vstd::std_specs::bits::{axiom_u64_trailing_zeros, u64_leading_zeros};

verus! {

/// Relies on `u64::count_ones`: the number of ones in the binary representation.
#[verifier::external_body]
pub(crate) fn count_ones_u64(x: u64) -> (r: u32)
    ensures
        r as nat == popcount(x as nat),
{
    x.count_ones()
}

proof fn lemma_u64_bit(x: u64, i: u64)
    requires
        i < 64,
    ensures
        bit(x as nat, i as nat) == ((x >> i) & 1 == 1),
        !bit(x as nat, i as nat) == ((x >> i) & 1 == 0),
        (x >> i) as nat == prefix(x as nat, i as nat),
{
    lemma_u64_shr_is_div(x, i);
    let y = x >> i;
    assert((y & 1 == 1) == (y % 2 == 1)) by (bit_vector);
    assert((y & 1 == 0) == (y % 2 == 0)) by (bit_vector);
}

pub(crate) proof fn lemma_u64_bit_len(x: u64)
    ensures
        bit_len(x as nat) == 64 - u64_leading_zeros(x),
    decreases x,
{
    reveal(u64_leading_zeros);
    if x > 0 {
        lemma_u64_bit_len((x / 2) as u64);
    }
}

pub(crate) proof fn lemma_u64_pow2(t: u64)
    requires
        t < 64,
    ensures
        (1u64 << t) as nat == pow2(t as nat),
{
    lemma_u64_pow2_no_overflow(t as nat);
    lemma_u64_shl_is_mul(1, t);
}

proof fn lemma_u64_candidate_bits(s: u64, i: u64)
    requires
        i < 64,
    ensures
        (((!s & (s << 1u64) & (s << 2u64)) >> i) & 1 == 1) == (i >= 2 && (s >> i) & 1 == 0 && (s
            >> (i - 1) as u64) & 1 == 1 && (s >> (i - 2) as u64) & 1 == 1),
{
    assert((((!s & (s << 1u64) & (s << 2u64)) >> i) & 1 == 1) == (i >= 2 && (s >> i) & 1 == 0 && (s
        >> (i - 1) as u64) & 1 == 1 && (s >> (i - 2) as u64) & 1 == 1)) by (bit_vector)
        requires
            i < 64,
    ;
}

proof fn lemma_u64_clear_bit(c: u64, t: u64)
    requires
        t < 64,
        (c >> t) & 1 == 1,
    ensures
        c ^ (1u64 << t) < c,
        forall|i: u64|
            i < 64 ==> ((#[trigger] ((c ^ (1u64 << t)) >> i) & 1 == 1) == (i != t && (c >> i) & 1
                == 1)),
{
    assert(c ^ (1u64 << t) < c) by (bit_vector)
        requires
            t < 64,
            (c >> t) & 1 == 1,
    ;
    assert forall|i: u64| i < 64 implies ((#[trigger] ((c ^ (1u64 << t)) >> i) & 1 == 1) == (i
        != t && (c >> i) & 1 == 1)) by {
        assert(((c ^ (1u64 << t)) >> i) & 1 == 1 <==> (i != t && (c >> i) & 1 == 1)) by (bit_vector)
            requires
                t < 64,
                i < 64,
                (c >> t) & 1 == 1,
        ;
    }
}

/// The split bit of a path held in a `u64`: zero for zero or one leaf, else the
/// lowest bit of the root's left subtree.
///
/// A right subtree that is a single leaf puts the split at bit two. Otherwise
/// the left subtree either is the top leaf or ends in a `0` right above the
/// `11` that starts the right subtree, so the candidates are the positions of
/// the `011` windows, tried from the low end: the first whose prefix is one
/// whole subtree is the split, and with none the split is the top bit.
pub fn left_branch_u64(s: u64) -> (r: u64)
    requires
        is_structure(s as nat),
    ensures
        r as nat == split_bit(s as nat),
{
    if s <= 1 {
        return 0;
    }
    let ghost n = s as nat;
    if s & 3 == 2 {
        proof {
            assert(s & 3 == 2 ==> s % 4 == 2) by (bit_vector);
            lemma_trivial_split(n);
            lemma_u64_pow2(2);
            assert(1u64 << 2u64 == 4) by (bit_vector);
        }
        return 4;
    }
    proof {
        assert(s & 3 != 2 ==> s % 4 != 2) by (bit_vector);
        lemma_split_point(n);
        lemma_u64_bit_len(s);
        vstd::std_specs::bits::axiom_u64_leading_zeros(s);
    }
    let ghost sp = split_point(n);
    let mut c: u64 = !s & (s << 1) & (s << 2);
    proof {
        assert forall|i: u64| i < 64 && (c >> i) & 1 == 1 implies is_candidate(n, i as nat) by {
            lemma_u64_candidate_bits(s, i);
            lemma_u64_bit(s, i);
            lemma_u64_bit(s, (i - 1) as u64);
            lemma_u64_bit(s, (i - 2) as u64);
        }
        if is_candidate(n, sp) {
            lemma_u64_bit_len(s);
            lemma_u64_candidate_bits(s, sp as u64);
            lemma_u64_bit(s, sp as u64);
            lemma_u64_bit(s, (sp - 1) as u64);
            lemma_u64_bit(s, (sp - 2) as u64);
        }
    }
    while c != 0
        invariant
            n == s as nat,
            is_tree(n),
            n > 1,
            n % 4 != 2,
            sp == split_point(n),
            1 <= sp < bit_len(n),
            bit_len(n) <= 64,
            depth(prefix(n, sp)) == 1,
            forall|i: u64| i < 64 && (c >> i) & 1 == 1 ==> is_candidate(n, i as nat),
            is_candidate(n, sp) ==> (c >> (sp as u64)) & 1 == 1,
        decreases c,
    {
        let t = c.trailing_zeros();
        proof {
            axiom_u64_trailing_zeros(c);
        }
        let t64 = t as u64;
        let rest = s >> t64;
        let width = 64 - rest.leading_zeros();
        let ones = count_ones_u64(rest);
        proof {
            assert((c >> t64) & 1 == 1);
            assert(is_candidate(n, t as nat));
            lemma_u64_bit(s, t64);
            lemma_u64_bit_len(rest);
            lemma_popcount_le_bit_len(rest as nat);
            if is_candidate(n, sp) && sp < t {
                assert((c >> (sp as u64)) & 1 == 0);
            }
        }
        if width + 1 == 2 * ones {
            proof {
                lemma_found(n, t as nat);
                lemma_u64_pow2(t64);
            }
            return 1u64 << t64;
        }
        proof {
            lemma_u64_clear_bit(c, t64);
        }
        c = c ^ (1u64 << t64);
    }
    proof {
        let sp64 = sp as u64;
        assert((c >> sp64) & 1 == 0) by (bit_vector)
            requires
                c == 0,
        ;
        lemma_top_split(n);
        lemma_u64_bit_len(s);
    }
    let top = (63 - s.leading_zeros()) as u64;
    proof {
        lemma_u64_pow2(top);
    }
    1u64 << top
}

/// The split bit of a path held in a `u8`, found on the path widened to a
/// `u64`: zero for zero or one leaf, else the lowest bit of the root's left
/// subtree.
pub fn left_branch_u8(s: u8) -> (r: u8)
    requires
        is_structure(s as nat),
    ensures
        r as nat == split_bit(s as nat),
{
    let wide = left_branch_u64(s as u64);
    proof {
        crate::model::split_bit_le(s as nat);
    }
    wide as u8
}

/// The split bit of a path held in a `u16`, found on the path widened to a
/// `u64`: zero for zero or one leaf, else the lowest bit of the root's left
/// subtree.
pub fn left_branch_u16(s: u16) -> (r: u16)
    requires
        is_structure(s as nat),
    ensures
        r as nat == split_bit(s as nat),
{
    let wide = left_branch_u64(s as u64);
    proof {
        crate::model::split_bit_le(s as nat);
    }
    wide as u16
}

/// The split bit of a path held in a `u32`, found on the path widened to a
/// `u64`: zero for zero or one leaf, else the lowest bit of the root's left
/// subtree.
pub fn left_branch_u32(s: u32) -> (r: u32)
    requires
        is_structure(s as nat),
    ensures
        r as nat == split_bit(s as nat),
{
    let wide = left_branch_u64(s as u64);
    proof {
        crate::model::split_bit_le(s as nat);
    }
    wide as u32
}

/// The split bit of a path held in a `usize`, found on the path widened to a
/// `u64`: zero for zero or one leaf, else the lowest bit of the root's left
/// subtree.
pub fn left_branch_usize(s: usize) -> (r: usize)
    requires
        is_structure(s as nat),
    ensures
        r as nat == split_bit(s as nat),
{
    let wide = left_branch_u64(s as u64);
    proof {
        crate::model::split_bit_le(s as nat);
    }
    wide as usize
}

/// A path that is not a tree was handed to the split-finder.
#[derive(Debug, Clone, Copy, PartialEq, Eq)]
pub enum SplitError {
    InvalidStructure,
}

/// Whether `s` is the path of a tree, or zero.
pub fn is_valid_u64(s: u64) -> (r: bool)
    ensures
        r == is_structure(s as nat),
{
    let mut x: u64 = s;
    while x > 0
        invariant
            prefixes_positive(s as nat) == prefixes_positive(x as nat),
        decreases x,
    {
        let width = 64 - x.leading_zeros();
        let ones = count_ones_u64(x);
        proof {
            lemma_u64_bit_len(x);
            vstd::std_specs::bits::axiom_u64_leading_zeros(x);
            lemma_popcount_le_bit_len(x as nat);
        }
        if 2 * ones < width + 1 {
            return false;
        }
        x = x / 2;
    }
    if s == 0 {
        return true;
    }
    let width = 64 - s.leading_zeros();
    let ones = count_ones_u64(s);
    proof {
        lemma_u64_bit_len(s);
        vstd::std_specs::bits::axiom_u64_leading_zeros(s);
        lemma_popcount_le_bit_len(s as nat);
    }
    2 * ones == width + 1
}

/// The split bit of `s`, or `InvalidStructure` exactly when `s` is neither
/// zero nor the path of a tree.
pub fn left_branch_checked_u64(s: u64) -> (r: Result<u64, SplitError>)
    ensures
        r is Ok <==> is_structure(s as nat),
        r matches Ok(b) ==> b as nat == split_bit(s as nat),
        r matches Err(e) ==> e == SplitError::InvalidStructure,
{
    if is_valid_u64(s) {
        Ok(left_branch_u64(s))
    } else {
        Err(SplitError::InvalidStructure)
    }
}

} // verus!
