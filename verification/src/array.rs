//! Bit-arrays: a buffer of elements held by value and viewed as a fixed
//! number of bits.
//!
//! The number of bits, `N`, is part of the type. The buffer has as many
//! elements as it takes to hold `N` bits; where `N` is not a multiple of the
//! element width, the last element also holds bits that are not part of the
//! array.

use vstd::prelude::*;
use core::marker::PhantomData;
use crate::index::lemma_width_positive;
use crate::mem::{buffer_bits, elts, elts_spec};
use crate::order::BitOrder;
use crate::ptr::{BitSpan, max_bits};
use crate::slice::{BitSlice, total_bits};
use crate::slice_mut::BitSliceMut;
use crate::store::BitStore;

pub mod iter;
pub mod ops;
pub mod traits;

verus! {

/// `N` bits in a buffer of elements of type `T`, ordered by `O`.
pub struct BitArray<T: BitStore, O: BitOrder, const N: usize> {
    data: Vec<T>,
    order: PhantomData<O>,
}

impl<T: BitStore, O: BitOrder, const N: usize> View for BitArray<T, O, N> {
    type V = Seq<bool>;

    /// The `N` bits of the array, in order.
    open spec fn view(&self) -> Seq<bool> {
        self.buffer().subrange(0, N as int)
    }
}

/// Whether a buffer of `len` elements of type `T` is the buffer of an array
/// of `bits` bits: it has just enough elements, and no more bits than a span
/// can reach over.
pub open spec fn holds_bits<T: BitStore>(len: nat, bits: nat) -> bool {
    &&& len == elts_spec(bits, T::bits())
    &&& len * T::bits() <= max_bits()
}

/// Tests `holds_bits`.
pub fn check_holds_bits<T: BitStore>(len: usize, bits: usize) -> (b: bool)
    ensures
        b == holds_bits::<T>(len as nat, bits as nat),
{
    if len != elts::<T>(bits) {
        return false;
    }
    match total_bits::<T>(len) {
        Some(_) => true,
        None => false,
    }
}

impl<T: BitStore, O: BitOrder, const N: usize> BitArray<T, O, N> {
    /// The elements of the buffer.
    pub closed spec fn elements(&self) -> Seq<T> {
        self.data@
    }

    /// All bits of the buffer, those past the end of the array included.
    pub open spec fn buffer(&self) -> Seq<bool> {
        buffer_bits::<T, O>(self.elements())
    }

    /// The buffer has the size that `N` bits take.
    pub open spec fn wf(&self) -> bool {
        holds_bits::<T>(self.elements().len(), N as nat)
    }

    /// The buffer of a well-formed array holds at least `N` bits.
    pub proof fn lemma_wf(&self)
        requires
            self.wf(),
        ensures
            N <= self.buffer().len() <= max_bits(),
            self@.len() == N,
    {
        lemma_width_positive::<T>();
        let w = T::bits() as int;
        let n = self.elements().len() as int;
        vstd::arithmetic::div_mod::lemma_fundamental_div_mod(N + w - 1, w);
        vstd::arithmetic::div_mod::lemma_mod_bound(N + w - 1, w);
        assert(w * n == n * w) by (nonlinear_arith);
    }

    /// Wraps a buffer as a bit-array. The buffer must have the size that `N`
    /// bits take.
    pub fn new(data: Vec<T>) -> (r: Self)
        requires
            holds_bits::<T>(data@.len(), N as nat),
        ensures
            r.elements() == data@,
            r.wf(),
    {
        BitArray { data, order: PhantomData }
    }

    /// Wraps a buffer as a bit-array, whatever its size is. The result is
    /// well-formed where the buffer has the size that `N` bits take.
    pub fn from_unchecked(data: Vec<T>) -> (r: Self)
        ensures
            r.elements() == data@,
    {
        BitArray { data, order: PhantomData }
    }

    /// Wraps a buffer as a bit-array if it has the size that `N` bits take.
    pub fn try_new(data: Vec<T>) -> (r: Option<Self>)
        ensures
            match r {
                Some(a) => holds_bits::<T>(data@.len(), N as nat) && a.elements() == data@ && a.wf(),
                None => !holds_bits::<T>(data@.len(), N as nat),
            },
    {
        if check_holds_bits::<T>(data.len(), N) {
            Some(BitArray { data, order: PhantomData })
        } else {
            None
        }
    }

    /// A bit-array with all bits clear, those past the end of the array
    /// included. There is none where `N` bits are more than a span can reach
    /// over.
    pub fn zero() -> (r: Option<Self>)
        ensures
            match r {
                Some(a) => {
                    &&& a.wf()
                    &&& a.buffer() == Seq::new(a.buffer().len(), |k: int| false)
                    &&& a@ == Seq::new(N as nat, |k: int| false)
                },
                None => !holds_bits::<T>(elts_spec(N as nat, T::bits()), N as nat),
            },
    {
        let count: usize = elts::<T>(N);
        if !check_holds_bits::<T>(count, N) {
            return None;
        }
        let mut data: Vec<T> = Vec::new();
        let mut i: usize = 0;
        while i < count
            invariant
                i <= count,
                data@.len() == i,
                forall|j: int| 0 <= j < i ==> (#[trigger] data@[j]).raw() == 0,
            decreases count - i,
        {
            data.push(T::from_raw(0));
            i = i + 1;
        }
        let a: Self = BitArray { data, order: PhantomData };
        proof {
            a.lemma_wf();
            assert forall|k: int| 0 <= k < a.buffer().len() implies a.buffer()[k] == false by {
                lemma_width_positive::<T>();
                crate::mem::lemma_buffer_position::<T, O>(a.elements(), k);
                O::lemma_bijection(T::bits());
                let e = k / (T::bits() as int);
                let idx = (k % (T::bits() as int)) as nat;
                assert(a.elements()[e].raw() == 0);
                crate::store::lemma_max_raw_bits(T::bits(), O::at_spec(idx, T::bits()));
            }
            assert(a.buffer() =~= Seq::new(a.buffer().len(), |k: int| false));
            assert(a@ =~= Seq::new(N as nat, |k: int| false));
        }
        Some(a)
    }

    /// Takes the buffer out of the array.
    pub fn into_inner(self) -> (data: Vec<T>)
        ensures
            data@ == self.elements(),
    {
        self.data
    }

    /// Views the array as a bit-slice.
    pub fn as_bitslice(&self) -> (s: BitSlice<'_, T, O>)
        requires
            self.wf(),
        ensures
            s@ == self@,
            s.elements() == self.elements(),
            s.spec_bitspan().first_bit() == 0,
    {
        proof {
            self.lemma_wf();
        }
        let span: BitSpan<T> = BitSpan::from_start(N);
        BitSlice::from_parts(self.data.as_slice(), span)
    }

    /// Views the array as an exclusive bit-slice. What is written through
    /// the view is written to the array.
    pub fn as_mut_bitslice(&mut self) -> (s: BitSliceMut<'_, T, O>)
        requires
            old(self).wf(),
        ensures
            s.wf(),
            s@ == old(self)@,
            s.elements() == old(self).elements(),
            s.span.first_bit() == 0,
            final(self).elements() == final(s.mem)@,
    {
        proof {
            self.lemma_wf();
        }
        let span: BitSpan<T> = BitSpan::from_start(N);
        BitSliceMut { mem: self.data.as_mut_slice(), span, order: PhantomData }
    }

    /// Views the buffer of the array.
    pub fn as_raw_slice(&self) -> (mem: &[T])
        ensures
            mem@ == self.elements(),
    {
        self.data.as_slice()
    }

    /// Views the buffer of the array for writing.
    pub fn as_raw_mut_slice(&mut self) -> (mem: &mut [T])
        ensures
            mem@ == old(self).elements(),
            final(self).elements() == final(mem)@,
    {
        self.data.as_mut_slice()
    }

    /// The number of bits in the array.
    pub fn len(&self) -> (n: usize)
        ensures
            n == N,
    {
        N
    }

    /// Whether the array holds no bit.
    pub fn is_empty(&self) -> (b: bool)
        ensures
            b == (N == 0),
    {
        self.len() == 0
    }
}

} // verus!
