//! Iteration over a bit-array by value.

use vstd::prelude::*;
use core::marker::PhantomData;
use crate::array::BitArray;
use crate::index::lemma_width_positive;
use crate::order::BitOrder;
use crate::slice::BitSlice;
use crate::slice_mut::BitSliceMut;
use crate::store::BitStore;

verus! {

/// A bit-array that is being read from both ends. The bits between `front`
/// and `back` have not been handed out yet.
pub struct IntoIter<T: BitStore, O: BitOrder, const N: usize> {
    array: BitArray<T, O, N>,
    front: usize,
    back: usize,
}

impl<T: BitStore, O: BitOrder, const N: usize> BitArray<T, O, N> {
    /// Turns the array into an iterator over its bits.
    pub fn into_iter(self) -> (it: IntoIter<T, O, N>)
        requires
            self.wf(),
        ensures
            it.wf(),
            it.spec_array() == self,
            it.remaining() == self@,
    {
        IntoIter::new(self)
    }
}

impl<T: BitStore, O: BitOrder, const N: usize> Clone for IntoIter<T, O, N> {
    /// Copies the iterator with its array.
    fn clone(&self) -> (r: Self)
        ensures
            r.spec_array().elements() == self.spec_array().elements(),
            r.spec_front() == self.spec_front(),
            r.spec_back() == self.spec_back(),
    {
        IntoIter { array: self.array.clone(), front: self.front, back: self.back }
    }
}

impl<T: BitStore, O: BitOrder, const N: usize> IntoIter<T, O, N> {
    /// The array that is iterated.
    pub closed spec fn spec_array(&self) -> BitArray<T, O, N> {
        self.array
    }

    /// The number of the first bit that has not been handed out.
    pub closed spec fn spec_front(&self) -> usize {
        self.front
    }

    /// The number one past the last bit that has not been handed out.
    pub closed spec fn spec_back(&self) -> usize {
        self.back
    }

    /// The array is well-formed and the live range lies in it.
    pub open spec fn wf(&self) -> bool {
        &&& self.spec_array().wf()
        &&& self.spec_front() <= self.spec_back() <= N
    }

    /// The bits that have not been handed out yet, in order.
    pub open spec fn remaining(&self) -> Seq<bool> {
        self.spec_array()@.subrange(self.spec_front() as int, self.spec_back() as int)
    }

    /// What the reading methods keep: the array.
    pub open spec fn same_array(&self, before: &Self) -> bool {
        self.spec_array() == before.spec_array()
    }

    /// Turns a bit-array into an iterator over its bits.
    pub fn new(array: BitArray<T, O, N>) -> (it: Self)
        requires
            array.wf(),
        ensures
            it.wf(),
            it.spec_array() == array,
            it.spec_front() == 0,
            it.spec_back() == N,
            it.remaining() == array@,
    {
        proof {
            array.lemma_wf();
            assert(array@.subrange(0, N as int) =~= array@);
        }
        IntoIter { array, front: 0, back: N }
    }

    /// Views the bits that have not been handed out yet.
    pub fn as_bitslice(&self) -> (s: BitSlice<'_, T, O>)
        requires
            self.wf(),
        ensures
            s@ == self.remaining(),
            s.elements() == self.spec_array().elements(),
            s.spec_bitspan().first_bit() == self.spec_front(),
    {
        proof {
            self.array.lemma_wf();
        }
        self.array.as_bitslice().subslice(self.front, self.back - self.front).unwrap()
    }

    /// Views the bits that have not been handed out yet; the same as
    /// `as_bitslice`.
    pub fn as_slice(&self) -> (s: BitSlice<'_, T, O>)
        requires
            self.wf(),
        ensures
            s@ == self.remaining(),
            s.elements() == self.spec_array().elements(),
            s.spec_bitspan().first_bit() == self.spec_front(),
    {
        self.as_bitslice()
    }

    /// Views the bits that have not been handed out yet, for writing. What
    /// is written through the view is written to the array of the iterator.
    pub fn as_mut_bitslice(&mut self) -> (s: BitSliceMut<'_, T, O>)
        requires
            old(self).wf(),
        ensures
            s.wf(),
            s@ == old(self).remaining(),
            s.elements() == old(self).spec_array().elements(),
            s.span.first_bit() == old(self).spec_front(),
            final(self).spec_array().elements() == final(s.mem)@,
            final(self).spec_front() == old(self).spec_front(),
            final(self).spec_back() == old(self).spec_back(),
    {
        proof {
            self.array.lemma_wf();
            lemma_width_positive::<T>();
        }
        let from: usize = self.front;
        let length: usize = self.back - self.front;
        let all: BitSliceMut<'_, T, O> = self.array.as_mut_bitslice();
        proof {
            all.span.pointer().lemma_target_bit_address(from as int);
        }
        let s: BitSliceMut<'_, T, O> = BitSliceMut {
            mem: all.mem,
            span: all.span.subspan(from, length).unwrap(),
            order: PhantomData,
        };
        assert(s@ =~= old(self).remaining());
        s
    }

    /// Views the bits that have not been handed out yet, for writing; the
    /// same as `as_mut_bitslice`.
    pub fn as_mut_slice(&mut self) -> (s: BitSliceMut<'_, T, O>)
        requires
            old(self).wf(),
        ensures
            s.wf(),
            s@ == old(self).remaining(),
            s.elements() == old(self).spec_array().elements(),
            s.span.first_bit() == old(self).spec_front(),
            final(self).spec_array().elements() == final(s.mem)@,
            final(self).spec_front() == old(self).spec_front(),
            final(self).spec_back() == old(self).spec_back(),
    {
        self.as_mut_bitslice()
    }

    /// Reads the bit number `index` of the array, handed out or not.
    pub fn get(&self, index: usize) -> (b: bool)
        requires
            self.wf(),
            index < N,
        ensures
            b == self.spec_array()@[index as int],
    {
        proof {
            self.array.lemma_wf();
        }
        self.array.as_bitslice().bit_at(index)
    }

    /// How many bits have not been handed out yet.
    pub fn len(&self) -> (n: usize)
        requires
            self.wf(),
        ensures
            n == self.remaining().len(),
    {
        proof {
            self.array.lemma_wf();
        }
        self.back - self.front
    }

    /// Hands out the first of the remaining bits.
    pub fn next(&mut self) -> (r: Option<bool>)
        requires
            old(self).wf(),
        ensures
            final(self).wf(),
            final(self).same_array(old(self)),
            match r {
                Some(b) => {
                    &&& old(self).remaining().len() > 0
                    &&& b == old(self).remaining().first()
                    &&& final(self).remaining() == old(self).remaining().drop_first()
                },
                None => old(self).remaining().len() == 0 && final(self).remaining() == old(
                    self,
                ).remaining(),
            },
    {
        self.nth(0)
    }

    /// Skips `n` of the remaining bits and hands out the next one. Where no
    /// more than `n` bits remain, all are skipped.
    pub fn nth(&mut self, n: usize) -> (r: Option<bool>)
        requires
            old(self).wf(),
        ensures
            final(self).wf(),
            final(self).same_array(old(self)),
            match r {
                Some(b) => {
                    &&& n < old(self).remaining().len()
                    &&& b == old(self).remaining()[n as int]
                    &&& final(self).remaining() == old(self).remaining().subrange(
                        n + 1,
                        old(self).remaining().len() as int,
                    )
                },
                None => n >= old(self).remaining().len() && final(self).remaining().len() == 0,
            },
    {
        proof {
            self.array.lemma_wf();
        }
        if n < self.back - self.front {
            let index: usize = self.front + n;
            self.front = index + 1;
            let b: bool = self.get(index);
            proof {
                assert(self.remaining() =~= old(self).remaining().subrange(
                    n + 1,
                    old(self).remaining().len() as int,
                ));
            }
            Some(b)
        } else {
            self.front = self.back;
            None
        }
    }

    /// Hands out the last of the remaining bits.
    pub fn next_back(&mut self) -> (r: Option<bool>)
        requires
            old(self).wf(),
        ensures
            final(self).wf(),
            final(self).same_array(old(self)),
            match r {
                Some(b) => {
                    &&& old(self).remaining().len() > 0
                    &&& b == old(self).remaining().last()
                    &&& final(self).remaining() == old(self).remaining().drop_last()
                },
                None => old(self).remaining().len() == 0 && final(self).remaining() == old(
                    self,
                ).remaining(),
            },
    {
        self.nth_back(0)
    }

    /// Skips `n` of the remaining bits from the end and hands out the one
    /// before them. Where no more than `n` bits remain, all are skipped.
    pub fn nth_back(&mut self, n: usize) -> (r: Option<bool>)
        requires
            old(self).wf(),
        ensures
            final(self).wf(),
            final(self).same_array(old(self)),
            match r {
                Some(b) => {
                    &&& n < old(self).remaining().len()
                    &&& b == old(self).remaining()[old(self).remaining().len() - 1 - n]
                    &&& final(self).remaining() == old(self).remaining().subrange(
                        0,
                        old(self).remaining().len() - 1 - n,
                    )
                },
                None => n >= old(self).remaining().len() && final(self).remaining().len() == 0,
            },
    {
        proof {
            self.array.lemma_wf();
        }
        if n < self.back - self.front {
            let index: usize = self.back - n - 1;
            self.back = index;
            let b: bool = self.get(index);
            proof {
                assert(self.remaining() =~= old(self).remaining().subrange(
                    0,
                    old(self).remaining().len() - 1 - n,
                ));
            }
            Some(b)
        } else {
            self.back = self.front;
            None
        }
    }
}

} // verus!
