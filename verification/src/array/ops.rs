//! The bitwise operators of bit-arrays, as methods.
//!
//! An operator with two operands takes a bit-slice of `N` bits as its right
//! operand and refuses any other length before it writes anything.

use vstd::prelude::*;
use crate::array::BitArray;
use crate::bulk::{BitOp, combined, spliced};
use crate::index::BitError;
use crate::order::BitOrder;
use crate::slice::BitSlice;
use crate::slice_mut::BitSliceMut;
use crate::store::BitStore;

verus! {

/// What an operator with two operands returns and leaves of the array
/// `after`, which was `before`: on success the bits of the array combined
/// with those of `rhs` and the other bits of the buffer unchanged, else the
/// two lengths and the buffer unchanged.
pub open spec fn combined_into<T: BitStore, O: BitOrder, const N: usize>(
    op: BitOp,
    before: BitArray<T, O, N>,
    rhs: Seq<bool>,
    after: BitArray<T, O, N>,
    r: Result<(), BitError>,
) -> bool {
    match r {
        Ok(_) => {
            &&& rhs.len() == N
            &&& after@ == combined(op, before@, rhs)
            &&& after.buffer() == spliced(before.buffer(), 0, after@)
        },
        Err(e) => {
            &&& rhs.len() != N
            &&& e == (BitError::LengthMismatch { left: N, right: rhs.len() as usize })
            &&& after.elements() == before.elements()
        },
    }
}

impl<T: BitStore, O: BitOrder, const N: usize> BitArray<T, O, N> {
    /// Combines the bits of the array with those of `rhs`.
    pub fn combine_assign<T2: BitStore, O2: BitOrder>(
        &mut self,
        op: BitOp,
        rhs: &BitSlice<'_, T2, O2>,
    ) -> (r: Result<(), BitError>)
        requires
            old(self).wf(),
        ensures
            final(self).wf(),
            combined_into(op, *old(self), rhs@, *final(self), r),
    {
        proof {
            self.lemma_wf();
        }
        let mut bits: BitSliceMut<'_, T, O> = self.as_mut_bitslice();
        bits.combine_with(op, rhs)
    }

    /// Replaces each bit of the array by its logical and with the bit of
    /// `rhs` that has the same number.
    pub fn bitand_assign<T2: BitStore, O2: BitOrder>(&mut self, rhs: &BitSlice<'_, T2, O2>) -> (r:
        Result<(), BitError>)
        requires
            old(self).wf(),
        ensures
            final(self).wf(),
            combined_into(BitOp::And, *old(self), rhs@, *final(self), r),
    {
        self.combine_assign(BitOp::And, rhs)
    }

    /// Replaces each bit of the array by its logical or with the bit of
    /// `rhs` that has the same number.
    pub fn bitor_assign<T2: BitStore, O2: BitOrder>(&mut self, rhs: &BitSlice<'_, T2, O2>) -> (r:
        Result<(), BitError>)
        requires
            old(self).wf(),
        ensures
            final(self).wf(),
            combined_into(BitOp::Or, *old(self), rhs@, *final(self), r),
    {
        self.combine_assign(BitOp::Or, rhs)
    }

    /// Replaces each bit of the array by its exclusive or with the bit of
    /// `rhs` that has the same number.
    pub fn bitxor_assign<T2: BitStore, O2: BitOrder>(&mut self, rhs: &BitSlice<'_, T2, O2>) -> (r:
        Result<(), BitError>)
        requires
            old(self).wf(),
        ensures
            final(self).wf(),
            combined_into(BitOp::Xor, *old(self), rhs@, *final(self), r),
    {
        self.combine_assign(BitOp::Xor, rhs)
    }

    /// The array with each bit replaced by its logical and with the bit of
    /// `rhs` that has the same number.
    pub fn bitand<T2: BitStore, O2: BitOrder>(self, rhs: &BitSlice<'_, T2, O2>) -> (r: Result<
        Self,
        BitError,
    >)
        requires
            self.wf(),
        ensures
            match r {
                Ok(a) => a.wf() && combined_into(BitOp::And, self, rhs@, a, Ok(())),
                Err(e) => combined_into(BitOp::And, self, rhs@, self, Err(e)),
            },
    {
        let mut this: Self = self;
        match this.bitand_assign(rhs) {
            Ok(_) => Ok(this),
            Err(e) => Err(e),
        }
    }

    /// The array with each bit replaced by its logical or with the bit of
    /// `rhs` that has the same number.
    pub fn bitor<T2: BitStore, O2: BitOrder>(self, rhs: &BitSlice<'_, T2, O2>) -> (r: Result<
        Self,
        BitError,
    >)
        requires
            self.wf(),
        ensures
            match r {
                Ok(a) => a.wf() && combined_into(BitOp::Or, self, rhs@, a, Ok(())),
                Err(e) => combined_into(BitOp::Or, self, rhs@, self, Err(e)),
            },
    {
        let mut this: Self = self;
        match this.bitor_assign(rhs) {
            Ok(_) => Ok(this),
            Err(e) => Err(e),
        }
    }

    /// The array with each bit replaced by its exclusive or with the bit of
    /// `rhs` that has the same number.
    pub fn bitxor<T2: BitStore, O2: BitOrder>(self, rhs: &BitSlice<'_, T2, O2>) -> (r: Result<
        Self,
        BitError,
    >)
        requires
            self.wf(),
        ensures
            match r {
                Ok(a) => a.wf() && combined_into(BitOp::Xor, self, rhs@, a, Ok(())),
                Err(e) => combined_into(BitOp::Xor, self, rhs@, self, Err(e)),
            },
    {
        let mut this: Self = self;
        match this.bitxor_assign(rhs) {
            Ok(_) => Ok(this),
            Err(e) => Err(e),
        }
    }

    /// The array with every bit of its buffer inverted, those past the end
    /// of the array included.
    pub fn not(self) -> (r: Self)
        requires
            self.wf(),
        ensures
            r.wf(),
            r.buffer() == Seq::new(self.buffer().len(), |k: int| !self.buffer()[k]),
            r@ == Seq::new(N as nat, |k: int| !self@[k]),
    {
        proof {
            self.lemma_wf();
        }
        let ghost before: Seq<bool> = self.buffer();
        let mut this: Self = self;
        match BitSliceMut::<T, O>::from_slice_mut(this.as_raw_mut_slice()) {
            Ok(mut all) => {
                all.invert();
            },
            Err(_) => {},
        }
        proof {
            assert(this.buffer() =~= Seq::new(before.len(), |k: int| !before[k]));
            assert(this@ =~= Seq::new(N as nat, |k: int| !before.subrange(0, N as int)[k]));
        }
        this
    }

    /// Reads the bit number `index`, if there is one.
    pub fn index(&self, index: usize) -> (r: Option<bool>)
        requires
            self.wf(),
        ensures
            r == (if index < N {
                Some(self@[index as int])
            } else {
                None
            }),
    {
        proof {
            self.lemma_wf();
        }
        self.as_bitslice().get(index)
    }

    /// Writes the bit number `index`.
    pub fn index_mut(&mut self, index: usize, value: bool) -> (r: Result<(), BitError>)
        requires
            old(self).wf(),
        ensures
            final(self).wf(),
            match r {
                Ok(_) => {
                    &&& index < N
                    &&& final(self)@ == old(self)@.update(index as int, value)
                    &&& final(self).buffer() == spliced(old(self).buffer(), 0, final(self)@)
                },
                Err(e) => {
                    &&& e == BitError::OutOfRange
                    &&& index >= N
                    &&& final(self).buffer() == old(self).buffer()
                },
            },
    {
        proof {
            self.lemma_wf();
        }
        let mut bits: BitSliceMut<'_, T, O> = self.as_mut_bitslice();
        let r: Result<(), BitError> = bits.set(index, value);
        proof {
            if r is Err {
                assert(bits.buffer() =~= old(self).buffer());
            }
        }
        r
    }
}

} // verus!
