//! The mathematical model of a Dyck path.
//!
//! A path is a natural number whose bits, read from the most significant one
//! down, list a binary tree's shape in postorder: a `1` is a leaf and a `0`
//! closes the internal node whose two children precede it. The tree with one
//! leaf is `1`, and a node with children `l` and `r` is `l`, then `r`, then `0`.
//! Reading a path from the top keeps a stack of finished subtrees; its height
//! after the prefix `n` is `depth(n)`, ones minus zeros.
use vstd::arithmetic::div_mod::lemma_div_denominator;
use vstd::arithmetic::power2::{lemma_pow2_adds, lemma_pow2_pos, lemma_pow2_unfold, pow2};
use vstd::prelude::*;

verus! {

/// Number of set bits.
pub open spec fn popcount(n: nat) -> nat
    decreases n,
{
    if n == 0 {
        0
    } else {
        popcount(n / 2) + n % 2
    }
}

/// Number of bits up to and including the highest set bit.
pub open spec fn bit_len(n: nat) -> nat
    decreases n,
{
    if n == 0 {
        0
    } else {
        bit_len(n / 2) + 1
    }
}

/// Height of the stack of subtrees after reading the bits of `n`: leaves minus
/// internal nodes.
pub open spec fn depth(n: nat) -> int {
    2 * popcount(n) - bit_len(n)
}

/// The bits of `n` from position `j` upward.
pub open spec fn prefix(n: nat, j: nat) -> nat {
    n / pow2(j)
}

/// Bit `j` of `n`.
pub open spec fn bit(n: nat, j: nat) -> bool {
    prefix(n, j) % 2 == 1
}

/// Every non-empty prefix of `n` leaves at least one subtree on the stack.
pub open spec fn prefixes_positive(n: nat) -> bool
    decreases n,
{
    n == 0 || (depth(n) >= 1 && prefixes_positive(n / 2))
}

/// `n` is the path of a tree with at least one leaf.
pub open spec fn is_tree(n: nat) -> bool {
    n > 0 && depth(n) == 1 && prefixes_positive(n)
}

/// `n` is the path of a tree, or the empty path.
pub open spec fn is_structure(n: nat) -> bool {
    n == 0 || is_tree(n)
}

/// The least position from `j` upward, below the top bit, whose prefix is a
/// single subtree; the top bit's position if there is none.
pub open spec fn unit_search(n: nat, j: nat) -> nat
    decreases bit_len(n) - j,
{
    if j + 1 >= bit_len(n) || depth(prefix(n, j)) == 1 {
        j
    } else {
        unit_search(n, j + 1)
    }
}

/// Position of the lowest bit of the left subtree of a tree with two or more
/// leaves: the least position `t >= 1` whose prefix is one whole subtree.
pub open spec fn split_point(n: nat) -> nat {
    unit_search(n, 1)
}

/// The split bit of a structure: `0` for zero or one leaf, otherwise the power
/// of two at the split point.
pub open spec fn split_bit(n: nat) -> nat {
    if n <= 1 {
        0
    } else {
        pow2(split_point(n))
    }
}

/// Position `j` holds a `0` with two `1`s right below it: the left subtree may
/// end at `j` and an internal right subtree start below it.
pub open spec fn is_candidate(n: nat, j: nat) -> bool {
    j >= 2 && !bit(n, j) && bit(n, (j - 1) as nat) && bit(n, (j - 2) as nat)
}

/// The path of the tree whose children have paths `l` and `r`.
pub open spec fn join(l: nat, r: nat) -> nat {
    (l * pow2(bit_len(r)) + r) * 2
}

pub proof fn lemma_prefix_zero(n: nat)
    ensures
        prefix(n, 0) == n,
{
    assert(pow2(0) == 1) by {
        vstd::arithmetic::power2::lemma2_to64();
    }
}

pub proof fn lemma_prefix_succ(n: nat, j: nat)
    ensures
        prefix(n, j + 1) == prefix(n, j) / 2,
{
    lemma_pow2_unfold(j + 1);
    lemma_pow2_pos(j);
    lemma_div_denominator(n as int, pow2(j) as int, 2);
}

pub proof fn lemma_prefix_add(n: nat, a: nat, b: nat)
    ensures
        prefix(prefix(n, a), b) == prefix(n, a + b),
{
    lemma_pow2_pos(a);
    lemma_pow2_pos(b);
    lemma_pow2_adds(a, b);
    lemma_div_denominator(n as int, pow2(a) as int, pow2(b) as int);
}

pub proof fn lemma_depth_step(m: nat)
    requires
        m > 0,
    ensures
        depth(m) == depth(m / 2) + 2 * (m % 2) - 1,
{
}

pub proof fn lemma_popcount_le_bit_len(n: nat)
    ensures
        popcount(n) <= bit_len(n),
    decreases n,
{
    if n > 0 {
        lemma_popcount_le_bit_len(n / 2);
    }
}

pub proof fn lemma_bit_len_prefix(n: nat, j: nat)
    ensures
        bit_len(prefix(n, j)) == if j >= bit_len(n) { 0 } else { (bit_len(n) - j) as nat },
    decreases j,
{
    if j == 0 {
        lemma_prefix_zero(n);
    } else {
        lemma_bit_len_prefix(n, (j - 1) as nat);
        lemma_prefix_succ(n, (j - 1) as nat);
    }
}

pub proof fn lemma_prefixes_positive_prefix(n: nat, j: nat)
    requires
        prefixes_positive(n),
    ensures
        prefixes_positive(prefix(n, j)),
        prefix(n, j) > 0 ==> depth(prefix(n, j)) >= 1,
    decreases j,
{
    if j == 0 {
        lemma_prefix_zero(n);
    } else {
        lemma_prefixes_positive_prefix(n, (j - 1) as nat);
        lemma_prefix_succ(n, (j - 1) as nat);
    }
}

pub proof fn lemma_unit_search(n: nat, j: nat, j0: nat)
    requires
        j <= j0,
        j0 + 1 == bit_len(n),
    ensures
        j <= unit_search(n, j) <= j0,
        unit_search(n, j) < j0 ==> depth(prefix(n, unit_search(n, j))) == 1,
        forall|k: nat| j <= k < unit_search(n, j) ==> depth(#[trigger] prefix(n, k)) != 1,
    decreases j0 - j,
{
    if j + 1 >= bit_len(n) || depth(prefix(n, j)) == 1 {
    } else {
        lemma_unit_search(n, j + 1, j0);
    }
}

/// What characterises the split point of a tree with two or more leaves.
pub proof fn lemma_split_point(n: nat)
    requires
        is_tree(n),
        n > 1,
    ensures
        1 <= split_point(n) < bit_len(n),
        depth(prefix(n, split_point(n))) == 1,
        forall|k: nat| 1 <= k < split_point(n) ==> depth(#[trigger] prefix(n, k)) != 1,
{
    let top = (bit_len(n) - 1) as nat;
    assert(bit_len(n / 2) >= 1);
    lemma_top_bit(n);
    lemma_unit_depth();
    lemma_unit_search(n, 1, top);
}

/// The highest set bit of a positive number is the prefix `1`.
pub proof fn lemma_top_bit(n: nat)
    requires
        n > 0,
    ensures
        prefix(n, (bit_len(n) - 1) as nat) == 1,
        bit(n, (bit_len(n) - 1) as nat),
{
    let top = (bit_len(n) - 1) as nat;
    lemma_bit_len_prefix(n, top);
    let p = prefix(n, top);
    assert(bit_len(p / 2) == 0);
    if p / 2 > 0 {
        assert(bit_len(p / 2) >= 1);
    }
}

pub proof fn lemma_unit_depth()
    ensures
        popcount(1) == 1,
        bit_len(1) == 1,
        depth(1) == 1,
        is_tree(1),
{
    assert(popcount(0) == 0);
    assert(prefixes_positive(0));
    assert(bit_len(0) == 0);
    assert((1 as nat) / 2 == 0);
}

/// A tree with two or more leaves ends in a `0`.
pub proof fn lemma_tree_even(l: nat)
    requires
        is_tree(l),
        l > 1,
    ensures
        l % 2 == 0,
{
    if l % 2 == 1 {
        lemma_depth_step(l);
        assert(prefixes_positive(l / 2));
        assert(depth(l / 2) >= 1);
    }
}

/// A tree whose right subtree is a single leaf splits at position two.
pub proof fn lemma_trivial_split(n: nat)
    requires
        is_tree(n),
        n % 4 == 2,
    ensures
        n > 1,
        split_point(n) == 2,
{
    lemma_prefix_succ(n, 0);
    lemma_prefix_succ(n, 1);
    lemma_prefix_zero(n);
    lemma_depth_step(n);
    assert((n / 2) % 2 == 1);
    lemma_depth_step(n / 2);
    assert(depth(prefix(n, 1)) == 2);
    assert(bit_len(n / 2) >= 1);
    assert(unit_search(n, 2) == 2);
}

/// Where the split point of a tree with an internal right subtree stands: on a
/// candidate, or on the top bit when the left subtree is a single leaf.
pub proof fn lemma_split_shape(n: nat)
    requires
        is_tree(n),
        n > 1,
        n % 4 != 2,
    ensures
        is_candidate(n, split_point(n)) || prefix(n, split_point(n)) == 1,
{
    let t = split_point(n);
    lemma_split_point(n);
    lemma_prefixes_positive_prefix(n, t);
    let l = prefix(n, t);
    assert(l > 0);
    if l != 1 {
        assert(is_tree(l));
        lemma_tree_even(l);
        lemma_prefix_zero(n);
        if t == 1 {
            lemma_prefix_succ(n, 0);
            lemma_depth_step(n);
            assert(false);
        }
        let m1 = prefix(n, (t - 1) as nat);
        lemma_prefix_succ(n, (t - 1) as nat);
        lemma_prefixes_positive_prefix(n, (t - 1) as nat);
        assert(m1 > 0);
        lemma_depth_step(m1);
        assert(m1 % 2 == 1);
        let m2 = prefix(n, (t - 2) as nat);
        lemma_prefix_succ(n, (t - 2) as nat);
        assert(m2 > 0);
        lemma_depth_step(m2);
        if t == 2 {
            assert(m2 == n);
            assert(n % 2 == 0);
            assert(n % 4 == 2);
        }
        assert(m2 % 2 == 1);
    }
}

/// The first position `t >= 1` whose prefix is one subtree, searched among the
/// candidates and then at the top, is the split point.
pub proof fn lemma_found(n: nat, t: nat)
    requires
        is_tree(n),
        n > 1,
        n % 4 != 2,
        t >= 1,
        depth(prefix(n, t)) == 1,
        is_candidate(n, split_point(n)) ==> t <= split_point(n),
    ensures
        t == split_point(n),
{
    let s = split_point(n);
    lemma_split_point(n);
    lemma_split_shape(n);
    if t > s {
        lemma_prefix_add(n, s, (t - s) as nat);
        lemma_pow2_unfold((t - s) as nat);
        lemma_pow2_pos((t - s - 1) as nat);
        let k = pow2((t - s) as nat);
        assert(k > 1);
        assert(prefix(n, s) == 1);
        assert((1 as nat) / k == 0) by (nonlinear_arith)
            requires
                k > 1,
        ;
        assert(prefix(n, t) == 0);
    }
}

/// When no candidate is the split point, the left subtree is the top leaf.
pub proof fn lemma_top_split(n: nat)
    requires
        is_tree(n),
        n > 1,
        n % 4 != 2,
        !is_candidate(n, split_point(n)),
    ensures
        split_point(n) + 1 == bit_len(n),
{
    lemma_split_point(n);
    lemma_split_shape(n);
    lemma_bit_len_prefix(n, split_point(n));
    lemma_unit_depth();
}


/// Every level of `b`, from `k` bits down to one, read after a prefix of depth
/// `base`, keeps the stack non-empty.
pub open spec fn levels_positive(base: int, b: nat, k: nat) -> bool
    decreases k,
{
    k == 0 || (base + 2 * popcount(b) - k >= 1 && levels_positive(base, b / 2, (k - 1) as nat))
}

pub proof fn lemma_below_pow2(n: nat)
    ensures
        n < pow2(bit_len(n)),
    decreases n,
{
    if n == 0 {
        lemma_pow2_pos(0);
    } else {
        lemma_below_pow2(n / 2);
        lemma_pow2_unfold(bit_len(n));
    }
}

/// Appending the `k` low bits `b` to `a > 0` adds their ones and their width.
pub proof fn lemma_concat(a: nat, b: nat, k: nat)
    requires
        a > 0,
        b < pow2(k),
    ensures
        popcount(a * pow2(k) + b) == popcount(a) + popcount(b),
        bit_len(a * pow2(k) + b) == bit_len(a) + k,
        prefixes_positive(a) && levels_positive(depth(a), b, k) ==> prefixes_positive(
            a * pow2(k) + b,
        ),
    decreases k,
{
    if k == 0 {
        vstd::arithmetic::power2::lemma2_to64();
        assert(b == 0);
        assert(a * pow2(0) == a);
    } else {
        lemma_pow2_unfold(k);
        let p = pow2((k - 1) as nat);
        lemma_pow2_pos((k - 1) as nat);
        let m = a * pow2(k) + b;
        assert(b / 2 < p);
        lemma_concat(a, b / 2, (k - 1) as nat);
        assert(m / 2 == a * p + b / 2 && m % 2 == b % 2) by (nonlinear_arith)
            requires
                m == a * pow2(k) + b,
                pow2(k) == 2 * p,
        ;
        assert(m > 0) by (nonlinear_arith)
            requires
                m == a * pow2(k) + b,
                a > 0,
                pow2(k) > 0,
        ;
        if b == 0 {
            assert(popcount(0) == 0);
        }
    }
}

/// A prefix whose every level stays positive.
pub proof fn lemma_tree_levels(r: nat)
    requires
        prefixes_positive(r),
    ensures
        levels_positive(1, r, bit_len(r)),
    decreases r,
{
    if r > 0 {
        lemma_tree_levels(r / 2);
    }
}

/// Joining two trees gives a tree, with the leaves of both.
pub proof fn lemma_join(l: nat, r: nat)
    requires
        is_tree(l),
        is_tree(r),
    ensures
        is_tree(join(l, r)),
        popcount(join(l, r)) == popcount(l) + popcount(r),
{
    let k = bit_len(r);
    lemma_below_pow2(r);
    lemma_tree_levels(r);
    lemma_concat(l, r, k);
    let m = l * pow2(k) + r;
    assert(m > 0);
    vstd::arithmetic::power2::lemma2_to64();
    lemma_concat(m, 0, 1);
    assert(popcount(0) == 0);
    assert(m * pow2(1) + 0 == join(l, r));
    assert(depth(m) == 2);
    assert(levels_positive(depth(m), 0, 0));
    assert(levels_positive(depth(m), 0, 1));
}


pub proof fn lemma_bit_len_below(n: nat, e: nat)
    requires
        n < pow2(e),
    ensures
        bit_len(n) <= e,
    decreases e,
{
    if e == 0 {
        vstd::arithmetic::power2::lemma2_to64();
    } else if n > 0 {
        lemma_pow2_unfold(e);
        lemma_bit_len_below(n / 2, (e - 1) as nat);
    }
}

/// The prefixes of `b` appended to `a` are the prefixes of `b` appended to `a`
/// with fewer low bits.
pub proof fn lemma_prefix_concat(a: nat, b: nat, k: nat, j: nat)
    requires
        b < pow2(k),
        j <= k,
    ensures
        prefix(a * pow2(k) + b, j) == a * pow2((k - j) as nat) + prefix(b, j),
        prefix(b, j) < pow2((k - j) as nat),
    decreases j,
{
    if j == 0 {
        lemma_prefix_zero(a * pow2(k) + b);
        lemma_prefix_zero(b);
    } else {
        let j1 = (j - 1) as nat;
        lemma_prefix_concat(a, b, k, j1);
        lemma_prefix_succ(a * pow2(k) + b, j1);
        lemma_prefix_succ(b, j1);
        lemma_pow2_unfold((k - j1) as nat);
        let p = pow2((k - j) as nat);
        let q = prefix(b, j1);
        assert((a * pow2((k - j1) as nat) + q) / 2 == a * p + q / 2 && q / 2 < p)
            by (nonlinear_arith)
            requires
                pow2((k - j1) as nat) == 2 * p,
                q < 2 * p,
        ;
    }
}

/// A number each of whose non-empty prefixes leaves a subtree on the stack.
pub proof fn lemma_positive_from_prefixes(n: nat)
    requires
        forall|j: nat| j < bit_len(n) ==> depth(#[trigger] prefix(n, j)) >= 1,
    ensures
        prefixes_positive(n),
    decreases n,
{
    if n > 0 {
        lemma_prefix_zero(n);
        assert(depth(prefix(n, 0)) >= 1);
        assert forall|j: nat| j < bit_len(n / 2) implies depth(#[trigger] prefix(n / 2, j))
            >= 1 by {
            lemma_prefix_add(n, 1, j);
            lemma_prefix_succ(n, 0);
            assert(depth(prefix(n, 1 + j)) >= 1);
        }
        lemma_positive_from_prefixes(n / 2);
    }
}

/// Splitting a tree with two or more leaves at its split point gives two trees,
/// the bits from the split point up and the bits below it without the last,
/// and joining those two gives the tree back.
pub proof fn split_round_trip(s: nat)
    requires
        is_tree(s),
        s > 1,
    ensures
        is_tree(prefix(s, split_point(s))),
        is_tree((s % pow2(split_point(s))) / 2),
        join(prefix(s, split_point(s)), (s % pow2(split_point(s))) / 2) == s,
        bit_len((s % pow2(split_point(s))) / 2) + 1 == split_point(s),
{
    let t = split_point(s);
    lemma_split_point(s);
    lemma_prefixes_positive_prefix(s, t);
    let l = prefix(s, t);
    assert(is_tree(l));
    lemma_tree_even(s);
    lemma_prefix_zero(s);
    lemma_prefix_succ(s, 0);
    lemma_depth_step(s);
    assert(t >= 2);
    let k = (t - 1) as nat;
    lemma_pow2_unfold(t);
    lemma_pow2_pos(k);
    let pk = pow2(k);
    let r = (s % pow2(t)) / 2;
    let m = s / 2;
    assert(m == l * pk + r && r < pk) by (nonlinear_arith)
        requires
            pow2(t) == 2 * pk,
            pk > 0,
            l == s / pow2(t),
            r == (s % pow2(t)) / 2,
            s % 2 == 0,
            m == s / 2,
    ;
    assert(depth(m) == 2);
    assert forall|j: nat| j < k implies depth(#[trigger] prefix(r, j)) >= 1 by {
        lemma_prefix_concat(l, r, k, j);
        lemma_prefix_add(s, 1, j);
        let pr = prefix(r, j);
        lemma_concat(l, pr, (k - j) as nat);
        lemma_prefixes_positive_prefix(s, 1 + j);
        assert(prefix(s, 1 + j) > 0) by (nonlinear_arith)
            requires
                prefix(s, 1 + j) == l * pow2((k - j) as nat) + pr,
                l > 0,
                pow2((k - j) as nat) > 0,
        ;
        lemma_pow2_pos((k - j) as nat);
        assert(depth(prefix(s, 1 + j)) >= 2);
        lemma_bit_len_below(pr, (k - j) as nat);
    }
    lemma_bit_len_below(r, k);
    assert(bit_len(r) == k) by {
        assert(depth(prefix(r, (k - 1) as nat)) >= 1);
        lemma_bit_len_prefix(r, (k - 1) as nat);
        if bit_len(r) < k {
            assert(bit_len(prefix(r, (k - 1) as nat)) == 0);
            assert(prefix(r, (k - 1) as nat) == 0);
            assert(popcount(0) == 0 && bit_len(0) == 0);
        }
    }
    lemma_concat(l, r, k);
    assert(depth(r) == 1);
    lemma_positive_from_prefixes(r);
    assert(r > 0) by {
        if r == 0 {
            assert(popcount(0) == 0 && bit_len(0) == 0);
        }
    }
}


/// The split bit depends on the path's value alone and fits every width that
/// holds the path: each representation that holds a path returns the same bits.
pub proof fn split_bit_fits(s: nat, w: nat)
    requires
        is_structure(s),
        s < pow2(w),
    ensures
        split_bit(s) < pow2(w),
{
    lemma_pow2_pos(w);
    if s > 1 {
        lemma_split_point(s);
        lemma_bit_len_below(s, w);
        vstd::arithmetic::power2::lemma_pow2_strictly_increases(split_point(s), w);
    }
}


/// The split bit never exceeds the path: it fits every integer type that holds
/// the path.
pub proof fn split_bit_le(s: nat)
    requires
        is_structure(s),
    ensures
        split_bit(s) <= s,
{
    if s > 1 {
        lemma_split_point(s);
        lemma_top_bit(s);
        let top = (bit_len(s) - 1) as nat;
        lemma_pow2_pos(top);
        assert(pow2(top) <= s) by (nonlinear_arith)
            requires
                s / pow2(top) == 1,
                pow2(top) > 0,
        ;
        if split_point(s) < top {
            vstd::arithmetic::power2::lemma_pow2_strictly_increases(split_point(s), top);
        }
    }
}


/// A tree with at most one set bit is the single leaf.
pub proof fn lemma_small_tree(n: nat)
    requires
        is_tree(n),
        popcount(n) <= 1,
    ensures
        n == 1,
{
    lemma_popcount_le_bit_len(n);
    assert(bit_len(n) == 1);
    assert(bit_len(n / 2) == 0);
    if n / 2 > 0 {
        assert(bit_len(n / 2) >= 1);
    }
}

/// A tree has at least one leaf.
pub proof fn lemma_tree_leaves(t: nat)
    requires
        is_tree(t),
    ensures
        popcount(t) >= 1,
{
}

/// A tree with two or more leaves is more than the single leaf.
pub proof fn lemma_small_tree_count(t: nat)
    requires
        is_tree(t),
        popcount(t) >= 2,
    ensures
        t > 1,
{
    lemma_unit_depth();
}

/// The ones from position `j` up are at most all the ones, and one more than
/// those from `j + 1` up when bit `j` is set.
pub proof fn lemma_popcount_split_low(n: nat, j: nat)
    ensures
        popcount(prefix(n, j)) <= popcount(n),
        prefix(n, j) % 2 == 1 ==> popcount(prefix(n, j + 1)) + 1 == popcount(prefix(n, j)),
    decreases j,
{
    lemma_prefix_succ(n, j);
    if prefix(n, j) > 0 {
        lemma_depth_step(prefix(n, j));
    }
    if j > 0 {
        lemma_popcount_split_low(n, (j - 1) as nat);
        lemma_prefix_succ(n, (j - 1) as nat);
    } else {
        lemma_prefix_zero(n);
    }
}

} // verus!
