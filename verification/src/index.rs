//! Bit indices inside one storage element, and the library's error values.

use vstd::prelude::*;
use core::marker::PhantomData;
use crate::store::BitStore;

verus! {

/// Why a bit pointer, a bit span or a bulk operation was refused.
#[derive(Clone, Copy, Debug, PartialEq, Eq, Structural)]
pub enum BitError {
    /// An address is not a multiple of the element's size.
    Alignment,
    /// A start index is not below the element's width.
    Range,
    /// A length reaches past the largest bit count that a span can hold, or
    /// past the end of the address space.
    Overflow,
    /// A pointer, a span or a range of bits would leave the buffer or the
    /// span that it belongs to.
    OutOfRange,
    /// Two operands that must be equally long are not.
    LengthMismatch { left: usize, right: usize },
}

/// The semantic index of a bit inside an element of type `T`: a number below
/// the element's width.
pub struct BitIdx<T: BitStore> {
    idx: u8,
    elem: PhantomData<T>,
}

impl<T: BitStore> Clone for BitIdx<T> {
    fn clone(&self) -> (r: Self)
        ensures
            r == *self,
    {
        *self
    }
}

impl<T: BitStore> Copy for BitIdx<T> {

}

impl<T: BitStore> View for BitIdx<T> {
    type V = nat;

    closed spec fn view(&self) -> nat {
        self.idx as nat
    }
}

impl<T: BitStore> BitIdx<T> {
    /// An index is valid when it is below the width of `T`.
    #[verifier::type_invariant]
    pub open spec fn wf(self) -> bool {
        self@ < T::bits()
    }

    /// The index with the value `v`.
    pub closed spec fn spec_new(v: nat) -> Self {
        BitIdx { idx: v as u8, elem: PhantomData }
    }

    /// Below the width, `spec_new` builds the index that it is asked for.
    pub proof fn lemma_spec_new(v: nat)
        requires
            v < T::bits(),
        ensures
            Self::spec_new(v)@ == v,
            Self::spec_new(v).wf(),
    {
        lemma_width_positive::<T>();
    }

    /// Two indices with the same value are the same index.
    pub proof fn lemma_view_injective(self, other: Self)
        requires
            self@ == other@,
        ensures
            self == other,
    {
    }

    /// Checks `value` against the element width.
    pub fn new(value: u8) -> (r: Result<Self, BitError>)
        ensures
            match r {
                Ok(idx) => value < T::bits() && idx@ == value && idx.wf(),
                Err(e) => value >= T::bits() && e == BitError::Range,
            },
    {
        if value < T::width() {
            Ok(BitIdx { idx: value, elem: PhantomData })
        } else {
            Err(BitError::Range)
        }
    }

    /// The index `value`, for a value that is known to be below the element
    /// width.
    pub fn in_range(value: u8) -> (r: Self)
        requires
            value < T::bits(),
        ensures
            r@ == value,
            r.wf(),
    {
        BitIdx { idx: value, elem: PhantomData }
    }

    /// The first index of an element.
    pub fn min() -> (r: Self)
        ensures
            r@ == 0,
            r.wf(),
    {
        proof {
            lemma_width_positive::<T>();
        }
        BitIdx { idx: 0, elem: PhantomData }
    }

    /// The last index of an element.
    pub fn max() -> (r: Self)
        ensures
            r@ == T::bits() - 1,
            r.wf(),
    {
        proof {
            lemma_width_positive::<T>();
        }
        BitIdx { idx: T::width() - 1, elem: PhantomData }
    }

    /// The index as a plain number.
    pub fn into_inner(self) -> (v: u8)
        ensures
            v == self@,
            v < T::bits(),
    {
        proof {
            use_type_invariant(&self);
        }
        self.idx
    }
}

/// Every element type has a supported width.
pub proof fn lemma_width_positive<T: BitStore>()
    ensures
        crate::store::supported_width(T::bits()),
{
    let z: T = arbitrary();
    z.lemma_raw_in_range();
}

} // verus!
