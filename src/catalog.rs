//! Every tree shape up to a number of leaves, as paths in a `u32`.
use crate::model::{
    bit_len, is_structure, is_tree, join, lemma_below_pow2, lemma_join, popcount,
};
use vstd::arithmetic::power2::{lemma_pow2_strictly_increases, pow2};
use vstd::bits::{lemma_u32_pow2_no_overflow, lemma_u32_shl_is_mul};
use vstd::prelude::*;

verus! {

/// Most leaves of a tree in the catalog: its path then takes 31 bits.
pub const MAX_LEAVES: usize = 16;

/// A tree with `k` leaves has a path of `2k - 1` bits.
proof fn lemma_tree_width(n: nat)
    requires
        is_tree(n),
    ensures
        bit_len(n) == 2 * popcount(n) - 1,
{
}

/// The path of the tree with children `l` and `r`.
fn join_u32(l: u32, r: u32, left: usize, right: usize) -> (t: u32)
    requires
        is_tree(l as nat),
        is_tree(r as nat),
        popcount(l as nat) == left,
        popcount(r as nat) == right,
        left + right <= MAX_LEAVES,
    ensures
        t as nat == join(l as nat, r as nat),
        is_tree(t as nat),
        popcount(t as nat) == left + right,
{
    let k: u32 = (2 * right - 1) as u32;
    proof {
        lemma_tree_width(l as nat);
        lemma_tree_width(r as nat);
        lemma_join(l as nat, r as nat);
        lemma_tree_width(join(l as nat, r as nat));
        lemma_below_pow2(join(l as nat, r as nat));
        lemma_below_pow2(r as nat);
        lemma_below_pow2(l as nat);
        lemma_u32_pow2_no_overflow(k as nat);
        if 2 * (left + right) - 1 < 31 {
            lemma_pow2_strictly_increases((2 * (left + right) - 1) as nat, 31);
        }
        vstd::arithmetic::power2::lemma2_to64();
        assert(l as nat * pow2(k as nat) <= join(l as nat, r as nat)) by (nonlinear_arith)
            requires
                join(l as nat, r as nat) == (l as nat * pow2(k as nat) + r as nat) * 2,
        ;
        lemma_u32_shl_is_mul(l, k);
        lemma_u32_shl_is_mul(1, k);
    }
    let shifted = l << k;
    proof {
        assert((shifted | r) == shifted + r) by (bit_vector)
            requires
                k < 32,
                shifted == l << k,
                r < (1u32 << k),
        ;
    }
    let m = shifted | r;
    proof {
        lemma_u32_shl_is_mul(m, 1);
    }
    m << 1
}

/// Every tree with `n` leaves, `1 <= n < each`, stands in `levels[n]`.
spec fn levels_complete(levels: Seq<Vec<u32>>, each: nat) -> bool {
    forall|t: nat|
        #![trigger is_tree(t), popcount(t)]
        is_tree(t) && 1 <= popcount(t) < each ==> levels[popcount(t) as int]@.contains(t as u32)
}

/// Every entry of `levels[n]`, `n >= 1`, is a tree with `n` leaves.
spec fn levels_sound(levels: Seq<Vec<u32>>) -> bool {
    forall|n: int, i: int|
        1 <= n < levels.len() && 0 <= i < levels[n].len() ==> is_tree(#[trigger] levels[n][i] as nat)
            && popcount(levels[n][i] as nat) == n
}

/// Every tree shape with up to `MAX_LEAVES` leaves, and the empty path: by leaf
/// count, and for each count every left subtree joined to every right subtree
/// with the remaining leaves.
pub fn all_trees() -> (r: Vec<u32>)
    ensures
        forall|i: int| 0 <= i < r.len() ==> is_structure(#[trigger] r[i] as nat),
        forall|i: int| 0 <= i < r.len() ==> popcount(#[trigger] r[i] as nat) <= MAX_LEAVES,
        r@.contains(0),
        forall|t: nat|
            is_tree(t) && popcount(t) <= MAX_LEAVES ==> #[trigger] r@.contains(t as u32),
{
    let mut levels: Vec<Vec<u32>> = Vec::new();
    levels.push(vec![0]);
    levels.push(vec![1]);
    proof {
        assert(popcount(0) == 0);
        crate::model::lemma_unit_depth();
        assert forall|t: nat| is_tree(t) && 1 <= popcount(t) < 2 implies levels@[popcount(
            t,
        ) as int]@.contains(t as u32) by {
            crate::model::lemma_small_tree(t);
            assert(levels@[1]@[0] == 1u32);
        }
    }
    let mut each: usize = 2;
    while each <= MAX_LEAVES
        invariant
            2 <= each <= MAX_LEAVES + 1,
            levels.len() == each,
            levels[0]@ == seq![0u32],
            levels_sound(levels@),
            levels_complete(levels@, each as nat),
        decreases MAX_LEAVES + 1 - each,
    {
        let mut s: Vec<u32> = Vec::new();
        let mut left: usize = 1;
        while left < each
            invariant
                2 <= each <= MAX_LEAVES,
                1 <= left <= each,
                levels.len() == each,
                levels[0]@ == seq![0u32],
                levels_sound(levels@),
                levels_complete(levels@, each as nat),
                forall|i: int|
                    0 <= i < s.len() ==> is_tree(#[trigger] s[i] as nat) && popcount(
                        s[i] as nat,
                    ) == each,
                forall|l: nat, r: nat|
                    #![trigger join(l, r)]
                    is_tree(l) && is_tree(r) && popcount(l) + popcount(r) == each && popcount(l)
                        < left ==> s@.contains(join(l, r) as u32),
            decreases each - left,
        {
            let right = each - left;
            let ls = &levels[left];
            let rs = &levels[right];
            let mut a: usize = 0;
            while a < ls.len()
                invariant
                    2 <= each <= MAX_LEAVES,
                    1 <= left < each,
                    right == each - left,
                    levels.len() == each,
                    ls == levels[left as int],
                    rs == levels[right as int],
                    levels_sound(levels@),
                    forall|i: int|
                        0 <= i < s.len() ==> is_tree(#[trigger] s[i] as nat) && popcount(
                            s[i] as nat,
                        ) == each,
                    forall|l: nat, r: nat|
                        #![trigger join(l, r)]
                        is_tree(l) && is_tree(r) && popcount(l) + popcount(r) == each
                            && popcount(l) < left ==> s@.contains(join(l, r) as u32),
                    forall|i: int, j: int|
                        0 <= i < a && 0 <= j < rs.len() ==> s@.contains(
                            join(#[trigger] ls[i] as nat, #[trigger] rs[j] as nat) as u32,
                        ),
                decreases ls.len() - a,
            {
                let mut b: usize = 0;
                while b < rs.len()
                    invariant
                        2 <= each <= MAX_LEAVES,
                        1 <= left < each,
                        right == each - left,
                        levels.len() == each,
                        a < ls.len(),
                        ls == levels[left as int],
                        rs == levels[right as int],
                        levels_sound(levels@),
                        forall|i: int|
                            0 <= i < s.len() ==> is_tree(#[trigger] s[i] as nat) && popcount(
                                s[i] as nat,
                            ) == each,
                        forall|l: nat, r: nat|
                            #![trigger join(l, r)]
                            is_tree(l) && is_tree(r) && popcount(l) + popcount(r) == each
                                && popcount(l) < left ==> s@.contains(join(l, r) as u32),
                        forall|i: int, j: int|
                            (0 <= i < a && 0 <= j < rs.len()) || (i == a && 0 <= j < b)
                                ==> s@.contains(
                                join(#[trigger] ls[i] as nat, #[trigger] rs[j] as nat) as u32,
                            ),
                    decreases rs.len() - b,
                {
                    assert(is_tree(levels[left as int][a as int] as nat));
                    assert(is_tree(levels[right as int][b as int] as nat));
                    let t = join_u32(ls[a], rs[b], left, right);
                    let ghost old_s = s@;
                    s.push(t);
                    proof {
                        assert(s@[old_s.len() as int] == t);
                        assert forall|x: u32| old_s.contains(x) implies s@.contains(x) by {
                            let k = choose|k: int| 0 <= k < old_s.len() && old_s[k] == x;
                            assert(s@[k] == x);
                        }
                    }
                    b = b + 1;
                }
                a = a + 1;
            }
            proof {
                assert forall|l: nat, r: nat|
                    #![trigger join(l, r)]
                    is_tree(l) && is_tree(r) && popcount(l) + popcount(r) == each && popcount(l)
                        < left + 1 implies s@.contains(join(l, r) as u32) by {
                    if popcount(l) == left {
                        assert(levels@[popcount(l) as int]@.contains(l as u32));
                        assert(levels@[popcount(r) as int]@.contains(r as u32));
                        let i = choose|i: int| 0 <= i < ls.len() && ls[i] == l as u32;
                        let j = choose|j: int| 0 <= j < rs.len() && rs[j] == r as u32;
                        lemma_fits(l);
                        lemma_fits(r);
                        assert(s@.contains(join(ls[i] as nat, rs[j] as nat) as u32));
                    }
                }
            }
            left = left + 1;
        }
        proof {
            assert forall|t: nat|
                #![trigger is_tree(t), popcount(t)]
                is_tree(t) && 1 <= popcount(t) < each + 1 implies levels@.push(s)[popcount(
                    t,
                ) as int]@.contains(t as u32) by {
                if popcount(t) == each {
                    crate::model::lemma_small_tree_count(t);
                    crate::model::split_round_trip(t);
                    let sp = crate::model::split_point(t);
                    let l = crate::model::prefix(t, sp);
                    let r = (t % vstd::arithmetic::power2::pow2(sp)) / 2;
                    lemma_join(l, r);
                    crate::model::lemma_tree_leaves(l);
                    crate::model::lemma_tree_leaves(r);
                    assert(s@.contains(join(l, r) as u32));
                } else {
                    assert(levels@.push(s)[popcount(t) as int] == levels@[popcount(t) as int]);
                }
            }
        }
        levels.push(s);
        each = each + 1;
    }
    let mut out: Vec<u32> = Vec::new();
    let mut n: usize = 0;
    while n < levels.len()
        invariant
            levels.len() == MAX_LEAVES + 1,
            n <= levels.len(),
            levels[0]@ == seq![0u32],
            levels_sound(levels@),
            forall|i: int|
                0 <= i < out.len() ==> is_structure(#[trigger] out[i] as nat) && popcount(
                    out[i] as nat,
                ) <= MAX_LEAVES,
            forall|k: int, j: int|
                0 <= k < n && 0 <= j < levels[k].len() ==> out@.contains(#[trigger] levels[k][j]),
        decreases levels.len() - n,
    {
        let level = &levels[n];
        let mut i: usize = 0;
        while i < level.len()
            invariant
                levels.len() == MAX_LEAVES + 1,
                n < levels.len(),
                level == levels[n as int],
                levels[0]@ == seq![0u32],
                levels_sound(levels@),
                forall|j: int|
                    0 <= j < out.len() ==> is_structure(#[trigger] out[j] as nat) && popcount(
                        out[j] as nat,
                    ) <= MAX_LEAVES,
                forall|k: int, j: int|
                    (0 <= k < n && 0 <= j < levels[k].len()) || (k == n && 0 <= j < i)
                        ==> out@.contains(#[trigger] levels[k][j]),
            decreases level.len() - i,
        {
            proof {
                if n == 0 {
                    assert(level[i as int] == 0);
                    assert(popcount(0) == 0);
                } else {
                    assert(is_tree(levels[n as int][i as int] as nat));
                }
            }
            let ghost old_out = out@;
            out.push(level[i]);
            proof {
                assert(out@[old_out.len() as int] == level[i as int]);
                assert forall|x: u32| old_out.contains(x) implies out@.contains(x) by {
                    let k = choose|k: int| 0 <= k < old_out.len() && old_out[k] == x;
                    assert(out@[k] == x);
                }
            }
            i = i + 1;
        }
        n = n + 1;
    }
    proof {
        assert(levels[0][0] == 0);
        assert forall|t: nat| is_tree(t) && popcount(t) <= MAX_LEAVES implies #[trigger] out@.contains(
            t as u32,
        ) by {
            crate::model::lemma_tree_leaves(t);
            assert(levels@[popcount(t) as int]@.contains(t as u32));
            let j = choose|j: int| 0 <= j < levels[popcount(t) as int].len() && levels[popcount(t) as int][j] == t as u32;
            assert(out@.contains(levels[popcount(t) as int][j]));
        }
    }
    out
}

/// A tree with at most `MAX_LEAVES` leaves fits in a `u32`.
proof fn lemma_fits(t: nat)
    requires
        is_tree(t),
        popcount(t) <= MAX_LEAVES,
    ensures
        (t as u32) as nat == t,
{
    lemma_tree_width(t);
    lemma_below_pow2(t);
    vstd::arithmetic::power2::lemma2_to64();
    if bit_len(t) < 32 {
        lemma_pow2_strictly_increases(bit_len(t), 32);
    }
}

} // verus!
