//! The sort (type) of a term: a bit-vector of a positive width, or an
//! array of `2^index_width` elements, each a bit-vector of
//! `element_width` bits. A bit-vector of width 1 doubles as the boolean
//! sort.

use vstd::arithmetic::power2::pow2;
use vstd::prelude::*;

verus! {

#[derive(Clone, Copy, PartialEq, Eq, Structural, Debug, Hash)]
pub enum Sort {
    Bv(usize),
    Array(usize, usize),
}

impl Sort {
    /// A sort is well formed when its widths are positive and the total
    /// number of bits it describes stays within a generous machine
    /// limit, so that bit counts and shift tables never overflow.
    pub open spec fn wf(self) -> bool {
        match self {
            Sort::Bv(w) => 0 < w <= 0x1000_0000,
            Sort::Array(i, e) => 0 < e && i < 28 && pow2(i as nat) * e <= 0x1000_0000,
        }
    }

    pub open spec fn is_bv(self) -> bool {
        self is Bv
    }

    pub open spec fn is_array(self) -> bool {
        self is Array
    }

    /// The number of bits a value of this sort flattens to: the width of a
    /// bit-vector, or `2^index_width * element_width` for an array.
    pub open spec fn spec_width(self) -> nat {
        match self {
            Sort::Bv(w) => w as nat,
            Sort::Array(i, e) => (pow2(i as nat) * e) as nat,
        }
    }

    /// The boolean sort: a bit-vector of width 1.
    pub fn bool_sort() -> (r: Sort)
        ensures
            r == Sort::Bv(1usize),
    {
        Sort::Bv(1)
    }

    /// The width of a bit-vector sort. Taking it on an array sort is a
    /// contract violation.
    pub fn bv_len(&self) -> (r: usize)
        requires
            self.is_bv(),
        ensures
            r as nat == self.spec_width(),
    {
        match self {
            Sort::Bv(w) => *w,
            Sort::Array(..) => unreached(),
        }
    }
}

/// A well-formed sort describes at least one bit.
pub proof fn lemma_sort_width_pos(s: Sort)
    requires
        s.wf(),
    ensures
        s.spec_width() > 0,
{
    match s {
        Sort::Bv(w) => {},
        Sort::Array(i, e) => {
            vstd::arithmetic::power2::lemma_pow2_pos(i as nat);
            vstd::arithmetic::mul::lemma_mul_strictly_positive(pow2(i as nat) as int, e as int);
        },
    }
}

} // verus!
