//! Typed identifiers: values that stand for a non-negative integer.

use vstd::prelude::*;

verus! {

/// An identifier that is in one-to-one correspondence with a range of
/// non-negative integers. Using distinct types for distinct kinds of
/// identifier keeps them from being mixed up.
pub trait Idx: Copy + Sized {
    /// The integer that this identifier stands for.
    spec fn index_spec(self) -> usize;

    /// Whether the integer `idx` has an identifier of this type.
    spec fn valid(idx: usize) -> bool;

    /// The identifier that stands for `idx`.
    fn new(idx: usize) -> (r: Self)
        requires
            Self::valid(idx),
        ensures
            r.index_spec() == idx,
    ;

    /// The integer that this identifier stands for.
    fn index(self) -> (i: usize)
        ensures
            i == self.index_spec(),
            Self::valid(i),
    ;

    /// Two identifiers that stand for the same integer are the same.
    proof fn index_is_injective(a: Self, b: Self)
        requires
            a.index_spec() == b.index_spec(),
        ensures
            a == b,
    ;
}

/// The integers that the identifiers in `s` stand for.
pub open spec fn ids<R: Idx>(s: Seq<R>) -> Set<nat> {
    Set::new(|m: nat| exists|i: int| 0 <= i < s.len() && (#[trigger] s[i]).index_spec() == m)
}

impl Idx for usize {
    open spec fn index_spec(self) -> usize {
        self
    }

    open spec fn valid(idx: usize) -> bool {
        true
    }

    fn new(idx: usize) -> (r: Self) {
        idx
    }

    fn index(self) -> (i: usize) {
        self
    }

    proof fn index_is_injective(a: Self, b: Self) {
    }
}

impl Idx for u32 {
    open spec fn index_spec(self) -> usize {
        self as usize
    }

    open spec fn valid(idx: usize) -> bool {
        idx <= u32::MAX
    }

    fn new(idx: usize) -> (r: Self) {
        idx as u32
    }

    fn index(self) -> (i: usize) {
        self as usize
    }

    proof fn index_is_injective(a: Self, b: Self) {
    }
}

} // verus!
