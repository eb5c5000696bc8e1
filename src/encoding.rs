//! Paths paired with their leaves: a bounded encoding on a machine word, an
//! unbounded one on base 2^32 digits, and the union that picks between them.
use crate::bigint::{big_count_ones, digits_value};
use crate::model::popcount;
use crate::split::count_ones_u64;
use std::sync::Arc;
use vstd::arithmetic::power2::pow2;
use vstd::prelude::*;

verus! {

/// Number of bits of a bounded path.
pub const PATH_BITS: usize = 64;

/// Number of bits of a path word.
pub const WORD_BITS: usize = 32;

/// The number whose base 2^32 digits, most significant first, are `w`.
pub open spec fn words_value(w: Seq<u32>) -> nat
    decreases w.len(),
{
    if w.len() == 0 {
        0
    } else {
        words_value(w.drop_last()) * pow2(32) + w.last() as nat
    }
}

/// A path in a machine word with the leaves it draws from.
pub struct BoundedDyck<L> {
    path: u64,
    leaves: Arc<Vec<L>>,
}

/// A path of any length, as base 2^32 digits least significant first, with
/// the leaves it draws from.
pub struct UnboundedDyck<L> {
    path: Vec<u32>,
    leaves: Arc<Vec<L>>,
}

/// A bounded or an unbounded encoding.
pub enum Dyck<L> {
    Bounded(BoundedDyck<L>),
    UnboundedDyck(UnboundedDyck<L>),
}

impl<L> BoundedDyck<L> {
    /// The path as a number.
    pub closed spec fn path_value(&self) -> nat {
        self.path as nat
    }

    /// The leaves.
    pub closed spec fn leaves_view(&self) -> Seq<L> {
        self.leaves@
    }

    /// The path has no more ones than there are leaves.
    pub open spec fn wf(&self) -> bool {
        popcount(self.path_value()) <= self.leaves_view().len()
    }

    /// The empty path with no leaves.
    pub fn zero() -> (r: Self)
        ensures
            r.path_value() == 0,
            r.leaves_view().len() == 0,
            r.wf(),
    {
        BoundedDyck { path: 0, leaves: Arc::new(Vec::new()) }
    }

    fn new_unchecked(path: u64, leaves: Arc<Vec<L>>) -> (r: Self)
        requires
            popcount(path as nat) <= leaves@.len(),
        ensures
            r.path_value() == path as nat,
            r.leaves_view() == leaves@,
            r.wf(),
    {
        BoundedDyck { path, leaves }
    }

    /// The encoding of `path` over `leaves`, present exactly when the path has
    /// no more ones than there are leaves.
    pub fn new(path: u64, leaves: Arc<Vec<L>>) -> (r: Option<Self>)
        ensures
            r.is_some() <==> popcount(path as nat) <= leaves@.len(),
            r matches Some(d) ==> d.path_value() == path as nat && d.leaves_view() == leaves@
                && d.wf(),
    {
        if count_ones_u64(path) as usize > leaves.len() {
            return None;
        }
        Some(Self::new_unchecked(path, leaves))
    }

    /// The path.
    pub fn path(&self) -> (r: u64)
        ensures
            r as nat == self.path_value(),
    {
        self.path
    }

    /// The number of leaves.
    pub fn leaf_count(&self) -> (r: usize)
        ensures
            r == self.leaves_view().len(),
    {
        self.leaves.len()
    }

    /// The leaf at index `i`.
    pub fn leaf(&self, i: usize) -> (r: &L)
        requires
            i < self.leaves_view().len(),
        ensures
            *r == self.leaves_view()[i as int],
    {
        let leaves: &Vec<L> = &self.leaves;
        &leaves[i]
    }
}

impl<L> UnboundedDyck<L> {
    /// The path as a number.
    pub closed spec fn path_value(&self) -> nat {
        digits_value(self.path@)
    }

    /// The leaves.
    pub closed spec fn leaves_view(&self) -> Seq<L> {
        self.leaves@
    }

    /// The path has no more ones than there are leaves.
    pub open spec fn wf(&self) -> bool {
        popcount(self.path_value()) <= self.leaves_view().len()
    }

    /// The empty path with no leaves.
    pub fn zero() -> (r: Self)
        ensures
            r.path_value() == 0,
            r.leaves_view().len() == 0,
            r.wf(),
    {
        let r = UnboundedDyck { path: Vec::new(), leaves: Arc::new(Vec::new()) };
        proof {
            assert(r.path@.len() == 0);
        }
        r
    }

    fn new_unchecked(path: Vec<u32>, leaves: Arc<Vec<L>>) -> (r: Self)
        requires
            popcount(digits_value(path@)) <= leaves@.len(),
        ensures
            r.path_value() == digits_value(path@),
            r.leaves_view() == leaves@,
            r.wf(),
    {
        UnboundedDyck { path, leaves }
    }

    /// The encoding of the path with base 2^32 digits `path`, least significant
    /// first, over `leaves`, present exactly when the path has no more ones than
    /// there are leaves.
    pub fn new(path: Vec<u32>, leaves: Arc<Vec<L>>) -> (r: Option<Self>)
        ensures
            r.is_some() <==> popcount(digits_value(path@)) <= leaves@.len(),
            r matches Some(d) ==> d.path_value() == digits_value(path@) && d.leaves_view()
                == leaves@ && d.wf(),
    {
        let ones = big_count_ones(&path);
        if ones as u128 > leaves.len() as u128 {
            return None;
        }
        Some(Self::new_unchecked(path, leaves))
    }

    /// The path's digits, least significant first.
    pub fn path(&self) -> (r: &Vec<u32>)
        ensures
            digits_value(r@) == self.path_value(),
    {
        &self.path
    }

    /// The number of leaves.
    pub fn leaf_count(&self) -> (r: usize)
        ensures
            r == self.leaves_view().len(),
    {
        self.leaves.len()
    }
}

proof fn lemma_reversed_digits(d: Seq<u32>, w: Seq<u32>)
    requires
        d.len() == w.len(),
        forall|j: int| 0 <= j < d.len() ==> d[j] == w[w.len() - 1 - j],
    ensures
        digits_value(d) == words_value(w),
    decreases d.len(),
{
    if d.len() > 0 {
        let d1 = d.subrange(1, d.len() as int);
        let w1 = w.drop_last();
        assert forall|j: int| 0 <= j < d1.len() implies d1[j] == w1[w1.len() - 1 - j] by {
            assert(d1[j] == d[j + 1]);
        }
        lemma_reversed_digits(d1, w1);
        assert(d[0] == w.last());
        assert(pow2(32) * digits_value(d1) == words_value(w1) * pow2(32)) by (nonlinear_arith)
            requires
                digits_value(d1) == words_value(w1),
        ;
    }
}

proof fn lemma_pack_word(p: u64, x: u32)
    requires
        p < 0x1_0000_0000,
    ensures
        ((p << 32u64) | x as u64) as nat == p as nat * pow2(32) + x as nat,
{
    vstd::arithmetic::power2::lemma2_to64();
    let y = x as u64;
    assert((p << 32u64) | y == p * 0x1_0000_0000 + y) by (bit_vector)
        requires
            p < 0x1_0000_0000,
            y < 0x1_0000_0000,
    ;
}

impl<L> Dyck<L> {
    /// The path as a number.
    pub open spec fn path_value(&self) -> nat {
        match self {
            Dyck::Bounded(b) => b.path_value(),
            Dyck::UnboundedDyck(u) => u.path_value(),
        }
    }

    /// The leaves.
    pub open spec fn leaves_view(&self) -> Seq<L> {
        match self {
            Dyck::Bounded(b) => b.leaves_view(),
            Dyck::UnboundedDyck(u) => u.leaves_view(),
        }
    }

    /// The encoding of the path whose 32-bit words, most significant first, are
    /// `path`, over `leaves`: bounded when the words fit a machine word, else
    /// unbounded. Present exactly when the path has no more ones than there are
    /// leaves.
    pub fn new(path: &[u32], leaves: Arc<Vec<L>>) -> (r: Option<Self>)
        ensures
            r.is_some() <==> popcount(words_value(path@)) <= leaves@.len(),
            r matches Some(d) ==> d.path_value() == words_value(path@) && d.leaves_view()
                == leaves@,
            r matches Some(d) ==> (d is Bounded <==> path@.len() * WORD_BITS <= PATH_BITS),
    {
        if path.len() > PATH_BITS / WORD_BITS {
            let mut digits: Vec<u32> = Vec::new();
            let mut k: usize = 0;
            while k < path.len()
                invariant
                    k <= path@.len(),
                    digits@.len() == k,
                    forall|j: int| 0 <= j < k ==> digits@[j] == path@[path@.len() - 1 - j],
                decreases path@.len() - k,
            {
                digits.push(path[path.len() - 1 - k]);
                k = k + 1;
            }
            proof {
                lemma_reversed_digits(digits@, path@);
            }
            match UnboundedDyck::new(digits, leaves) {
                Some(u) => Some(Dyck::UnboundedDyck(u)),
                None => None,
            }
        } else {
            let mut path_i: u64 = 0;
            let mut k: usize = 0;
            while k < path.len()
                invariant
                    k <= path@.len() <= 2,
                    path_i as nat == words_value(path@.subrange(0, k as int)),
                    k < 2 ==> path_i < 0x1_0000_0000,
                decreases path@.len() - k,
            {
                proof {
                    let next = path@.subrange(0, k + 1);
                    assert(next.drop_last() =~= path@.subrange(0, k as int));
                    lemma_pack_word(path_i, path[k as int]);
                    vstd::arithmetic::power2::lemma2_to64();
                    if k == 0 {
                        assert(path@.subrange(0, 0) =~= Seq::<u32>::empty());
                    }
                }
                path_i = (path_i << 32u64) | path[k] as u64;
                k = k + 1;
            }
            proof {
                assert(path@.subrange(0, path@.len() as int) =~= path@);
            }
            match BoundedDyck::new(path_i, leaves) {
                Some(b) => Some(Dyck::Bounded(b)),
                None => None,
            }
        }
    }
}

} // verus!
