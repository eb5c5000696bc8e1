//! A cursor that walks down the subtrees of a bounded encoding.
use crate::encoding::BoundedDyck;
use crate::model::{
    bit_len, is_tree, lemma_below_pow2, lemma_prefix_add, lemma_prefix_zero, popcount, prefix,
    split_point, split_round_trip,
};
use crate::split::{is_valid_u64, lemma_u64_bit_len, lemma_u64_pow2, left_branch_u64};
use vstd::arithmetic::div_mod::{lemma_mod_breakdown, lemma_mod_mod, lemma_small_mod};
use vstd::arithmetic::power2::{lemma_pow2_adds, lemma_pow2_pos, pow2};
use vstd::prelude::*;
use vstd::std_specs::bits::axiom_u64_trailing_zeros;

verus! {

/// The `w` bits of `p` from position `t` up, taken from the `w + t` bits of `p`
/// from position zero up.
proof fn lemma_window_high(p: nat, t: nat, w: nat)
    requires
        t <= w,
    ensures
        (p % pow2(w)) / pow2(t) == (p / pow2(t)) % pow2((w - t) as nat),
{
    let y = pow2(t);
    let z = pow2((w - t) as nat);
    lemma_pow2_pos(t);
    lemma_pow2_pos((w - t) as nat);
    lemma_pow2_adds(t, (w - t) as nat);
    lemma_mod_breakdown(p as int, y as int, z as int);
    let q = (p / y) % z;
    let rem = p % y;
    assert((y * q + rem) / y == q) by (nonlinear_arith)
        requires
            y > 0,
            0 <= rem < y,
            q >= 0,
    ;
}

/// The bits of `p` from position one below position `t`.
proof fn lemma_window_low(p: nat, t: nat, w: nat)
    requires
        1 <= t <= w,
    ensures
        ((p % pow2(w)) % pow2(t)) / 2 == (p / 2) % pow2((t - 1) as nat),
{
    lemma_pow2_pos(t);
    lemma_pow2_pos((w - t) as nat);
    lemma_pow2_adds(t, (w - t) as nat);
    lemma_mod_mod(p as int, pow2(t) as int, pow2((w - t) as nat) as int);
    lemma_window_high(p, 1, t);
    vstd::arithmetic::power2::lemma2_to64();
}

/// A cursor on a subtree of a bounded encoding: the subtree's own path, and
/// the position of its lowest bit in the encoding's path.
#[derive(Clone, Copy)]
pub struct DyckZipper {
    path_offset: u32,
    subtree: u64,
}

impl DyckZipper {
    /// Position of the subtree's lowest bit in the encoding's path.
    pub closed spec fn offset_value(&self) -> nat {
        self.path_offset as nat
    }

    /// The subtree's path.
    pub closed spec fn subtree_value(&self) -> nat {
        self.subtree as nat
    }

    /// The cursor holds a tree that fits in a bounded path at its offset.
    pub open spec fn wf(&self) -> bool {
        is_tree(self.subtree_value()) && self.offset_value() + bit_len(self.subtree_value()) <= 64
    }

    /// The cursor sits on a subtree of the path `p`: its path is the bits of `p`
    /// from its offset up, as many as it has.
    pub open spec fn on(&self, p: nat) -> bool {
        self.wf() && self.subtree_value() == prefix(p, self.offset_value()) % pow2(
            bit_len(self.subtree_value()),
        )
    }

    /// The cursor on the root of `enc`, present exactly when its path is a tree.
    pub fn root<L>(enc: &BoundedDyck<L>) -> (r: Option<DyckZipper>)
        ensures
            r is Some <==> is_tree(enc.path_value()),
            r matches Some(z) ==> z.on(enc.path_value()) && z.offset_value() == 0
                && z.subtree_value() == enc.path_value(),
    {
        let p = enc.path();
        if p == 0 || !is_valid_u64(p) {
            return None;
        }
        proof {
            lemma_u64_bit_len(p);
            vstd::std_specs::bits::axiom_u64_leading_zeros(p);
            lemma_prefix_zero(p as nat);
            lemma_below_pow2(p as nat);
            lemma_small_mod(p as nat, pow2(bit_len(p as nat)));
        }
        Some(DyckZipper { path_offset: 0, subtree: p })
    }

    /// Position of the subtree's lowest bit in the encoding's path.
    pub fn offset(&self) -> (r: u32)
        ensures
            r as nat == self.offset_value(),
    {
        self.path_offset
    }

    /// The subtree's path.
    pub fn subtree(&self) -> (r: u64)
        ensures
            r as nat == self.subtree_value(),
    {
        self.subtree
    }

    /// Whether the cursor is on a leaf.
    pub fn is_leaf(&self) -> (r: bool)
        ensures
            r == (self.subtree_value() == 1),
    {
        self.subtree == 1
    }

    /// The split point of the subtree, with its split bit.
    fn split(&self) -> (r: (u32, u64))
        requires
            self.wf(),
            self.subtree_value() > 1,
        ensures
            r.0 as nat == split_point(self.subtree_value()),
            r.1 as nat == pow2(split_point(self.subtree_value())),
            r.0 < 64,
            r.1 > 0,
    {
        let b = left_branch_u64(self.subtree);
        let ghost sp = split_point(self.subtree as nat);
        proof {
            crate::model::lemma_split_point(self.subtree as nat);
            lemma_u64_bit_len(self.subtree);
            vstd::std_specs::bits::axiom_u64_leading_zeros(self.subtree);
            lemma_u64_pow2(sp as u64);
            lemma_pow2_pos(sp);
        }
        let t = b.trailing_zeros();
        proof {
            let s64 = sp as u64;
            axiom_u64_trailing_zeros(b);
            assert(forall|j: u64| j < 64 ==> (((1u64 << s64) >> j) & 1 == 1 <==> j == s64))
                by (bit_vector)
                requires
                    s64 < 64,
            ;
            if (t as u64) < s64 {
                assert((b >> (t as u64)) & 1 == 1);
            }
            if s64 < (t as u64) {
                assert((b >> s64) & 1 == 0);
            }
        }
        (t, b)
    }

    /// The cursor on the left child, or none on a leaf.
    pub fn step_left(&self) -> (r: Option<Self>)
        requires
            self.wf(),
        ensures
            r is None <==> self.subtree_value() == 1,
            r matches Some(z) ==> z.wf() && z.subtree_value() == prefix(
                self.subtree_value(),
                split_point(self.subtree_value()),
            ) && z.offset_value() == self.offset_value() + split_point(self.subtree_value()),
            r matches Some(z) ==> forall|p: nat| self.on(p) ==> #[trigger] z.on(p),
    {
        if self.subtree == 1 {
            return None;
        }
        proof {
            crate::model::lemma_unit_depth();
        }
        let (t, b) = self.split();
        let z = DyckZipper { path_offset: self.path_offset + t, subtree: self.subtree / b };
        proof {
            let s = self.subtree as nat;
            let sp = t as nat;
            split_round_trip(s);
            crate::model::lemma_bit_len_prefix(s, sp);
            crate::model::lemma_split_point(s);
            assert forall|p: nat| self.on(p) implies #[trigger] z.on(p) by {
                lemma_window_high(prefix(p, self.offset_value()), sp, bit_len(s));
                lemma_prefix_add(p, self.offset_value(), sp);
            }
        }
        Some(z)
    }

    /// The cursor on the right child, or none on a leaf.
    pub fn step_right(&self) -> (r: Option<Self>)
        requires
            self.wf(),
        ensures
            r is None <==> self.subtree_value() == 1,
            r matches Some(z) ==> z.wf() && z.subtree_value() == (self.subtree_value() % pow2(
                split_point(self.subtree_value()),
            )) / 2 && z.offset_value() == self.offset_value() + 1,
            r matches Some(z) ==> forall|p: nat| self.on(p) ==> #[trigger] z.on(p),
    {
        if self.subtree == 1 {
            return None;
        }
        proof {
            crate::model::lemma_unit_depth();
        }
        let (t, b) = self.split();
        let z = DyckZipper { path_offset: self.path_offset + 1, subtree: (self.subtree % b) / 2 };
        proof {
            let s = self.subtree as nat;
            let sp = t as nat;
            split_round_trip(s);
            crate::model::lemma_split_point(s);
            assert forall|p: nat| self.on(p) implies #[trigger] z.on(p) by {
                lemma_window_low(prefix(p, self.offset_value()), sp, bit_len(s));
                lemma_prefix_add(p, self.offset_value(), 1);
                crate::model::lemma_prefix_succ(prefix(p, self.offset_value()), 0);
                lemma_prefix_zero(prefix(p, self.offset_value()));
            }
        }
        Some(z)
    }

    /// Index among the leaves of the leaf the cursor is on: the number of
    /// leaves above it in the path `p`. None when the cursor is not on a leaf.
    pub fn leaf_index<L>(&self, enc: &BoundedDyck<L>) -> (r: Option<usize>)
        requires
            self.on(enc.path_value()),
        ensures
            r is Some <==> self.subtree_value() == 1,
            r matches Some(i) ==> i == popcount(prefix(enc.path_value(), self.offset_value() + 1)),
            r matches Some(i) ==> enc.wf() ==> i < enc.leaves_view().len(),
    {
        if self.subtree != 1 {
            return None;
        }
        let p = enc.path();
        let ghost pn = p as nat;
        let ghost off = self.path_offset as nat;
        proof {
            crate::model::lemma_unit_depth();
            lemma_prefix_add(pn, off, 1);
            crate::model::lemma_prefix_succ(prefix(pn, off), 0);
            lemma_prefix_zero(prefix(pn, off));
            vstd::arithmetic::power2::lemma2_to64();
            let q = prefix(pn, off);
            assert(q % 2 == 1);
            assert(q > 0);
            crate::model::lemma_popcount_split_low(pn, off);
        }
        let count = if self.path_offset >= 63 {
            proof {
                crate::model::lemma_bit_len_below(pn, 64);
                crate::model::lemma_bit_len_prefix(pn, off + 1);
                if prefix(pn, off + 1) > 0 {
                    assert(bit_len(prefix(pn, off + 1)) >= 1);
                }
                assert(popcount(0) == 0);
            }
            0
        } else {
            let shift = (self.path_offset + 1) as u64;
            proof {
                vstd::bits::lemma_u64_shr_is_div(p, shift);
            }
            crate::split::count_ones_u64(p >> shift)
        };
        Some(count as usize)
    }

    /// The payload of the leaf the cursor is on, or none when it is not on a
    /// leaf.
    pub fn leaf<'a, L>(&self, enc: &'a BoundedDyck<L>) -> (r: Option<&'a L>)
        requires
            self.on(enc.path_value()),
            enc.wf(),
        ensures
            r is Some <==> self.subtree_value() == 1,
            r matches Some(x) ==> *x == enc.leaves_view()[popcount(
                prefix(enc.path_value(), self.offset_value() + 1),
            ) as int],
    {
        match self.leaf_index(enc) {
            Some(i) => Some(enc.leaf(i)),
            None => None,
        }
    }
}

} // verus!
