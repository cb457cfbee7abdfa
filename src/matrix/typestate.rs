//! Size tags for rows and columns, and the tags one size smaller.

use vstd::prelude::*;

verus! {

/// A size tag: a type that stands for one of the sizes 1 to 4.
pub trait Dim {
    /// The size this tag stands for.
    spec fn dim() -> nat;

    proof fn lemma_dim_range()
        ensures
            1 <= Self::dim() <= 4,
    ;

    fn size() -> (r: usize)
        ensures
            r == Self::dim(),
    ;
}

/// A size tag with a tag one smaller, so that a row or column can be removed.
pub trait Sub: Dim {
    type SUB: Dim;

    proof fn lemma_sub()
        ensures
            Self::SUB::dim() + 1 == Self::dim(),
    ;
}

#[derive(Debug, Copy, Clone, Default, PartialEq)]
pub struct M1;

#[derive(Debug, Copy, Clone, Default, PartialEq)]
pub struct M2;

#[derive(Debug, Copy, Clone, Default, PartialEq)]
pub struct M3;

#[derive(Debug, Copy, Clone, Default, PartialEq)]
pub struct M4;

impl Dim for M1 {
    open spec fn dim() -> nat {
        1
    }

    proof fn lemma_dim_range() {
    }

    fn size() -> (r: usize) {
        1
    }
}

impl Dim for M2 {
    open spec fn dim() -> nat {
        2
    }

    proof fn lemma_dim_range() {
    }

    fn size() -> (r: usize) {
        2
    }
}

impl Dim for M3 {
    open spec fn dim() -> nat {
        3
    }

    proof fn lemma_dim_range() {
    }

    fn size() -> (r: usize) {
        3
    }
}

impl Dim for M4 {
    open spec fn dim() -> nat {
        4
    }

    proof fn lemma_dim_range() {
    }

    fn size() -> (r: usize) {
        4
    }
}

impl Sub for M3 {
    type SUB = M2;

    proof fn lemma_sub() {
    }
}

impl Sub for M4 {
    type SUB = M3;

    proof fn lemma_sub() {
    }
}

} // verus!
