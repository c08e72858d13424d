//! Exclusive bit-slices: a mutably borrowed buffer and a span of its bits,
//! with the bulk operations that write them.
//!
//! A partial first or last element of a span also holds bits that are not
//! part of the span. Every operation here says what becomes of the bits of
//! the span and that no other bit of the buffer changes.

use vstd::prelude::*;
use vstd::arithmetic::div_mod::*;
use core::marker::PhantomData;
use crate::bulk::{
    BitOp,
    BitSource,
    Repeat,
    combine_span,
    combined,
    move_span,
    span_within,
    spliced,
};
use crate::index::{BitError, lemma_width_positive};
use crate::mem::{buffer_bits, store_bit};
use crate::order::BitOrder;
use crate::ptr::{BitPtr, BitSpan, max_bits};
use crate::slice::{BitSlice, count_ones_of, span_fits, total_bits};
use crate::store::BitStore;

verus! {

/// An exclusive view of some bits of a borrowed buffer.
///
/// The addresses of `span` count from the start of `mem`. The parts are
/// public so that a contract can say which buffer the view borrows: each
/// operation states that the buffer behind `mem` is the same before and
/// after. A view that the constructors built satisfies `wf()`, and the
/// operations keep it.
pub struct BitSliceMut<'a, T: BitStore, O: BitOrder> {
    pub mem: &'a mut [T],
    pub span: BitSpan<T>,
    pub order: PhantomData<O>,
}

impl<'a, T: BitStore, O: BitOrder> View for BitSliceMut<'a, T, O> {
    type V = Seq<bool>;

    /// The bits of the slice, in order.
    open spec fn view(&self) -> Seq<bool> {
        self.buffer().subrange(self.span.first_bit() as int, self.span.end_bit() as int)
    }
}

impl<'a, T: BitStore, O: BitOrder> BitSliceMut<'a, T, O> {
    /// The elements of the borrowed buffer.
    pub open spec fn elements(&self) -> Seq<T> {
        self.mem@
    }

    /// All bits of the borrowed buffer.
    pub open spec fn buffer(&self) -> Seq<bool> {
        buffer_bits::<T, O>(self.elements())
    }

    /// The span lies in the buffer, and the buffer holds no more than
    /// `max_bits()` bits.
    pub open spec fn wf(&self) -> bool {
        span_within(self.span, self.buffer().len())
    }

    /// What every operation keeps: the span, the size of the buffer, and
    /// each bit of the buffer that is not a bit of the span.
    pub open spec fn updates(&self, before: &Self) -> bool {
        &&& self.span == before.span
        &&& self.elements().len() == before.elements().len()
        &&& self.buffer() == spliced(before.buffer(), self.span.first_bit() as int, self@)
    }

    /// Views all bits of `mem`.
    pub fn from_slice_mut(mem: &'a mut [T]) -> (r: Result<Self, BitError>)
        ensures
            match r {
                Ok(s) => {
                    &&& old(mem)@.len() * T::bits() <= max_bits()
                    &&& s.mem@ == old(mem)@
                    &&& final(s.mem)@ == final(mem)@
                    &&& s.span.first_bit() == 0
                    &&& s@ == buffer_bits::<T, O>(old(mem)@)
                    &&& s.wf()
                },
                Err(e) => {
                    &&& e == BitError::Overflow
                    &&& old(mem)@.len() * T::bits() > max_bits()
                    &&& final(mem)@ == old(mem)@
                },
            },
    {
        let total: usize = match total_bits::<T>(mem.len()) {
            Some(t) => t,
            None => {
                return Err(BitError::Overflow);
            },
        };
        let s: Self = BitSliceMut { mem, span: BitSpan::from_start(total), order: PhantomData };
        assert(s@ =~= s.buffer());
        Ok(s)
    }

    /// Views the bits of `mem` that `span` names. The addresses of `span`
    /// count from the start of `mem`.
    pub fn new(mem: &'a mut [T], span: BitSpan<T>) -> (r: Result<Self, BitError>)
        ensures
            match r {
                Ok(s) => {
                    &&& s.mem@ == old(mem)@
                    &&& final(s.mem)@ == final(mem)@
                    &&& s.span == span
                    &&& s.wf()
                },
                Err(e) => {
                    &&& final(mem)@ == old(mem)@
                    &&& {
                        ||| e == BitError::Overflow && old(mem)@.len() * T::bits() > max_bits()
                        ||| e == BitError::OutOfRange && old(mem)@.len() * T::bits() <= max_bits()
                            && span.end_bit() > old(mem)@.len() * T::bits()
                    }
                },
            },
    {
        let total: usize = match total_bits::<T>(mem.len()) {
            Some(t) => t,
            None => {
                return Err(BitError::Overflow);
            },
        };
        if !span_fits(&span, total) {
            return Err(BitError::OutOfRange);
        }
        proof {
            use_type_invariant(&span);
        }
        Ok(BitSliceMut { mem, span, order: PhantomData })
    }

    /// The number of bits.
    pub fn len(&self) -> (n: usize)
        requires
            self.wf(),
        ensures
            n == self@.len(),
    {
        self.span.length()
    }

    /// Whether the slice holds no bit.
    pub fn is_empty(&self) -> (b: bool)
        requires
            self.wf(),
        ensures
            b == (self@.len() == 0),
    {
        self.span.is_empty()
    }

    /// The same bits as a shared slice.
    pub fn as_bitslice(&self) -> (s: BitSlice<'_, T, O>)
        requires
            self.wf(),
        ensures
            s@ == self@,
            s.elements() == self.elements(),
            s.spec_bitspan() == self.span,
    {
        BitSlice::from_parts(&*self.mem, self.span)
    }

    /// Reads the bit number `i`, if there is one.
    pub fn get(&self, i: usize) -> (r: Option<bool>)
        requires
            self.wf(),
        ensures
            r == (if i < self@.len() {
                Some(self@[i as int])
            } else {
                None
            }),
    {
        self.as_bitslice().get(i)
    }

    /// Writes the bit number `i`.
    pub fn set(&mut self, i: usize, value: bool) -> (r: Result<(), BitError>)
        requires
            old(self).wf(),
        ensures
            final(self).wf(),
            final(self).updates(old(self)),
            final(final(self).mem)@ == final(old(self).mem)@,
            match r {
                Ok(_) => i < old(self)@.len() && final(self)@ == old(self)@.update(i as int, value),
                Err(e) => e == BitError::OutOfRange && i >= old(self)@.len() && final(self)@ == old(
                    self,
                )@,
            },
    {
        if i >= self.span.length() {
            proof {
                assert(self.buffer() =~= spliced(
                    self.buffer(),
                    self.span.first_bit() as int,
                    self@,
                ));
            }
            return Err(BitError::OutOfRange);
        }
        self.write(i, value);
        Ok(())
    }

    /// Writes the bit number `i` of a slice that has one.
    pub fn write(&mut self, i: usize, value: bool)
        requires
            old(self).wf(),
            i < old(self)@.len(),
        ensures
            final(self).wf(),
            final(self).updates(old(self)),
            final(final(self).mem)@ == final(old(self).mem)@,
            final(self)@ == old(self)@.update(i as int, value),
    {
        proof {
            lemma_width_positive::<T>();
            self.span.pointer().lemma_target_bit_address(i as int);
        }
        let p: BitPtr<T> = self.span.pointer().add(i, 0, usize::MAX).unwrap();
        store_bit::<T, O>(self.mem, p.address(), p.start_index().into_inner(), value);
        proof {
            assert(self@ =~= old(self)@.update(i as int, value));
            assert(self.buffer() =~= spliced(
                old(self).buffer(),
                self.span.first_bit() as int,
                self@,
            ));
        }
    }

    /// Combines each bit of the slice with the bit of `src` that has the same
    /// number.
    pub fn combine<S: BitSource>(&mut self, op: BitOp, src: &S)
        requires
            old(self).wf(),
            src.source_bits().len() == old(self)@.len(),
        ensures
            final(self).wf(),
            final(self).updates(old(self)),
            final(final(self).mem)@ == final(old(self).mem)@,
            final(self)@ == combined(op, old(self)@, src.source_bits()),
    {
        combine_span::<T, O, S>(self.mem, self.span, op, src);
        proof {
            assert(self@ =~= combined(op, old(self)@, src.source_bits()));
            assert(self.buffer() =~= spliced(
                old(self).buffer(),
                self.span.first_bit() as int,
                self@,
            ));
        }
    }

    /// Sets every bit of the slice to `value`.
    pub fn fill(&mut self, value: bool)
        requires
            old(self).wf(),
        ensures
            final(self).wf(),
            final(self).updates(old(self)),
            final(final(self).mem)@ == final(old(self).mem)@,
            final(self)@ == Seq::new(old(self)@.len(), |i: int| value),
    {
        let src: Repeat = Repeat { value, len: self.span.length() };
        self.combine(BitOp::Copy, &src);
        proof {
            assert(self@ =~= Seq::new(old(self)@.len(), |i: int| value));
        }
    }

    /// Inverts every bit of the slice.
    pub fn invert(&mut self)
        requires
            old(self).wf(),
        ensures
            final(self).wf(),
            final(self).updates(old(self)),
            final(final(self).mem)@ == final(old(self).mem)@,
            final(self)@ == Seq::new(old(self)@.len(), |i: int| !old(self)@[i]),
    {
        let src: Repeat = Repeat { value: true, len: self.span.length() };
        self.combine(BitOp::Xor, &src);
        proof {
            assert(self@ =~= Seq::new(old(self)@.len(), |i: int| !old(self)@[i]));
        }
    }

    /// Combines the slice with `rhs`, which must be as long as the slice.
    /// Nothing is written when it is not.
    pub fn combine_with<'b, T2: BitStore, O2: BitOrder>(
        &mut self,
        op: BitOp,
        rhs: &BitSlice<'b, T2, O2>,
    ) -> (r: Result<(), BitError>)
        requires
            old(self).wf(),
        ensures
            final(self).wf(),
            final(self).updates(old(self)),
            final(final(self).mem)@ == final(old(self).mem)@,
            match r {
                Ok(_) => {
                    &&& rhs@.len() == old(self)@.len()
                    &&& final(self)@ == combined(op, old(self)@, rhs@)
                },
                Err(e) => {
                    &&& rhs@.len() != old(self)@.len()
                    &&& e == (BitError::LengthMismatch {
                        left: old(self)@.len() as usize,
                        right: rhs@.len() as usize,
                    })
                    &&& final(self).mem@ == old(self).mem@
                },
            },
    {
        let left: usize = self.span.length();
        let right: usize = rhs.len();
        if left != right {
            proof {
                assert(self.buffer() =~= spliced(
                    self.buffer(),
                    self.span.first_bit() as int,
                    self@,
                ));
            }
            return Err(BitError::LengthMismatch { left, right });
        }
        self.combine(op, rhs);
        Ok(())
    }
}

impl<'a, T: BitStore, O: BitOrder> BitSliceMut<'a, T, O> {
    /// Replaces each bit by its logical and with the bit of `rhs` that has
    /// the same number.
    /// Nothing is written when `rhs` is not as long as the slice.
    pub fn and_assign<'b, T2: BitStore, O2: BitOrder>(&mut self, rhs: &BitSlice<'b, T2, O2>) -> (r:
        Result<(), BitError>)
        requires
            old(self).wf(),
        ensures
            final(self).wf(),
            final(self).updates(old(self)),
            final(final(self).mem)@ == final(old(self).mem)@,
            match r {
                Ok(_) => {
                    &&& rhs@.len() == old(self)@.len()
                    &&& final(self)@ == combined(BitOp::And, old(self)@, rhs@)
                },
                Err(e) => {
                    &&& rhs@.len() != old(self)@.len()
                    &&& e == (BitError::LengthMismatch {
                        left: old(self)@.len() as usize,
                        right: rhs@.len() as usize,
                    })
                    &&& final(self).mem@ == old(self).mem@
                },
            },
    {
        self.combine_with(BitOp::And, rhs)
    }

    /// Replaces each bit by its logical or with the bit of `rhs` that has
    /// the same number.
    /// Nothing is written when `rhs` is not as long as the slice.
    pub fn or_assign<'b, T2: BitStore, O2: BitOrder>(&mut self, rhs: &BitSlice<'b, T2, O2>) -> (r:
        Result<(), BitError>)
        requires
            old(self).wf(),
        ensures
            final(self).wf(),
            final(self).updates(old(self)),
            final(final(self).mem)@ == final(old(self).mem)@,
            match r {
                Ok(_) => {
                    &&& rhs@.len() == old(self)@.len()
                    &&& final(self)@ == combined(BitOp::Or, old(self)@, rhs@)
                },
                Err(e) => {
                    &&& rhs@.len() != old(self)@.len()
                    &&& e == (BitError::LengthMismatch {
                        left: old(self)@.len() as usize,
                        right: rhs@.len() as usize,
                    })
                    &&& final(self).mem@ == old(self).mem@
                },
            },
    {
        self.combine_with(BitOp::Or, rhs)
    }

    /// Replaces each bit by its exclusive or with the bit of `rhs` that has
    /// the same number.
    /// Nothing is written when `rhs` is not as long as the slice.
    pub fn xor_assign<'b, T2: BitStore, O2: BitOrder>(&mut self, rhs: &BitSlice<'b, T2, O2>) -> (r:
        Result<(), BitError>)
        requires
            old(self).wf(),
        ensures
            final(self).wf(),
            final(self).updates(old(self)),
            final(final(self).mem)@ == final(old(self).mem)@,
            match r {
                Ok(_) => {
                    &&& rhs@.len() == old(self)@.len()
                    &&& final(self)@ == combined(BitOp::Xor, old(self)@, rhs@)
                },
                Err(e) => {
                    &&& rhs@.len() != old(self)@.len()
                    &&& e == (BitError::LengthMismatch {
                        left: old(self)@.len() as usize,
                        right: rhs@.len() as usize,
                    })
                    &&& final(self).mem@ == old(self).mem@
                },
            },
    {
        self.combine_with(BitOp::Xor, rhs)
    }

    /// Replaces each bit by the bit of `rhs` that has the same number.
    /// Nothing is written when `rhs` is not as long as the slice.
    pub fn copy_from_bitslice<'b, T2: BitStore, O2: BitOrder>(&mut self, rhs: &BitSlice<'b, T2, O2>) -> (r:
        Result<(), BitError>)
        requires
            old(self).wf(),
        ensures
            final(self).wf(),
            final(self).updates(old(self)),
            final(final(self).mem)@ == final(old(self).mem)@,
            match r {
                Ok(_) => {
                    &&& rhs@.len() == old(self)@.len()
                    &&& final(self)@ == combined(BitOp::Copy, old(self)@, rhs@)
                },
                Err(e) => {
                    &&& rhs@.len() != old(self)@.len()
                    &&& e == (BitError::LengthMismatch {
                        left: old(self)@.len() as usize,
                        right: rhs@.len() as usize,
                    })
                    &&& final(self).mem@ == old(self).mem@
                },
            },
    {
        self.combine_with(BitOp::Copy, rhs)
    }
}

/// The bits `bits` after the `length` bits from `src` on were copied to the
/// place that starts at `dst`, as if through a copy of the source.
pub open spec fn moved(bits: Seq<bool>, src: int, dst: int, length: int) -> Seq<bool> {
    spliced(bits, dst, bits.subrange(src, src + length))
}

impl<'a, T: BitStore, O: BitOrder> BitSliceMut<'a, T, O> {
    /// Reads the bit number `i` of a slice that has one.
    pub fn read(&self, i: usize) -> (b: bool)
        requires
            self.wf(),
            i < self@.len(),
        ensures
            b == self@[i as int],
    {
        self.as_bitslice().bit_at(i)
    }

    /// Copies the `length` bits that start at `src` to the place that starts
    /// at `dst`. The two ranges may overlap: the result is the same as if the
    /// source had been copied away first.
    pub fn copy_within(&mut self, src: usize, dst: usize, length: usize) -> (r: Result<
        (),
        BitError,
    >)
        requires
            old(self).wf(),
        ensures
            final(self).wf(),
            final(self).updates(old(self)),
            final(final(self).mem)@ == final(old(self).mem)@,
            match r {
                Ok(_) => {
                    &&& src + length <= old(self)@.len()
                    &&& dst + length <= old(self)@.len()
                    &&& final(self)@ == moved(old(self)@, src as int, dst as int, length as int)
                },
                Err(e) => {
                    &&& e == BitError::OutOfRange
                    &&& (src + length > old(self)@.len() || dst + length > old(self)@.len())
                    &&& final(self).elements() == old(self).elements()
                },
            },
    {
        let len: usize = self.span.length();
        let ghost first: int = self.span.first_bit() as int;
        let ghost before: Seq<bool> = self.buffer();
        let ghost bits: Seq<bool> = self@;
        proof {
            lemma_width_positive::<T>();
            assert(self.buffer() =~= spliced(before, first, self@));
        }
        if src > len || length > len - src || dst > len || length > len - dst {
            return Err(BitError::OutOfRange);
        }
        proof {
            self.span.pointer().lemma_target_bit_address(dst as int);
        }
        let start: usize = 8 * self.span.address() + self.span.start_index().into_inner() as usize;
        let part: BitSpan<T> = self.span.subspan(dst, length).unwrap();
        move_span::<T, O>(self.mem, part, start + src);
        proof {
            assert(self@ =~= moved(bits, src as int, dst as int, length as int));
            assert(self.buffer() =~= spliced(before, first, self@));
        }
        Ok(())
    }
}

/// The bits `bits` turned left by `n` places: the bit number `i` of the
/// result is the bit number `i + n` of `bits`, counted round the ring.
pub open spec fn rotated_left(bits: Seq<bool>, n: int) -> Seq<bool> {
    if bits.len() == 0 {
        bits
    } else {
        Seq::new(bits.len(), |i: int| bits[(i + n) % (bits.len() as int)])
    }
}

/// The bits `bits` turned right by `n` places: the bit number `i` of the
/// result is the bit number `i - n` of `bits`, counted round the ring.
pub open spec fn rotated_right(bits: Seq<bool>, n: int) -> Seq<bool> {
    if bits.len() == 0 {
        bits
    } else {
        Seq::new(bits.len(), |i: int| bits[(i - n) % (bits.len() as int)])
    }
}

/// The bits `bits` moved left by `n` places; the places that no bit moves
/// into are clear.
pub open spec fn shifted_left(bits: Seq<bool>, n: int) -> Seq<bool> {
    Seq::new(
        bits.len(),
        |i: int|
            if i + n < bits.len() {
                bits[i + n]
            } else {
                false
            },
    )
}

/// The bits `bits` moved right by `n` places; the places that no bit moves
/// into are clear.
pub open spec fn shifted_right(bits: Seq<bool>, n: int) -> Seq<bool> {
    Seq::new(
        bits.len(),
        |i: int|
            if i >= n {
                bits[i - n]
            } else {
                false
            },
    )
}

/// Where a place of a ring of `len` places lands after `n` steps forward.
pub proof fn lemma_ring_forward(i: int, n: int, len: int)
    requires
        0 <= i < len,
        0 <= n,
    ensures
        (i + n) % len == (if i + n % len < len {
            i + n % len
        } else {
            i + n % len - len
        }),
        0 <= n % len < len,
{
    let k = n % len;
    lemma_mod_bound(n, len);
    lemma_fundamental_div_mod(n, len);
    lemma_mod_multiples_vanish(n / len, i + k, len);
    assert(len * (n / len) + (i + k) == i + n);
    if i + k < len {
        lemma_small_mod((i + k) as nat, len as nat);
    } else {
        lemma_fundamental_div_mod_converse(i + k, len, 1, i + k - len);
    }
}

/// Where a place of a ring of `len` places lands after `n` steps back: the
/// same place as after `len - n % len` steps forward.
pub proof fn lemma_ring_backward(i: int, n: int, len: int)
    requires
        0 <= i < len,
        0 <= n,
    ensures
        (i - n) % len == (i + (len - n % len)) % len,
        0 <= (i - n) % len < len,
{
    let k = n % len;
    lemma_mod_bound(n, len);
    lemma_mod_bound(i - n, len);
    lemma_fundamental_div_mod(n, len);
    lemma_mod_multiples_vanish(n / len + 1, i - n, len);
    assert(len * (n / len + 1) + (i - n) == i + (len - k)) by (nonlinear_arith)
        requires
            n == len * (n / len) + k,
    ;
}

/// Turning left by `n` places and then by the rest of the ring gives back
/// the bits that one started with.
pub proof fn lemma_rotate_round_trip(bits: Seq<bool>, n: int)
    requires
        0 <= n <= bits.len(),
    ensures
        rotated_left(rotated_left(bits, n), bits.len() - n) == bits,
{
    let len = bits.len() as int;
    if len > 0 {
        let once = rotated_left(bits, n);
        let twice = rotated_left(once, len - n);
        assert forall|i: int| 0 <= i < len implies twice[i] == bits[i] by {
            let j = (i + (len - n)) % len;
            lemma_mod_bound(i + (len - n), len);
            lemma_add_mod_noop(i + (len - n), n, len);
            lemma_mod_multiples_vanish(1, i, len);
            lemma_small_mod(i as nat, len as nat);
            lemma_mod_bound(n, len);
            lemma_add_mod_noop(j, n, len);
            lemma_mod_twice(i + (len - n), len);
            assert((j + n) % len == i);
        }
        assert(twice =~= bits);
    }
}

/// Turning right undoes turning left by the same number of places.
pub proof fn lemma_rotate_left_right(bits: Seq<bool>, n: int)
    requires
        0 <= n,
    ensures
        rotated_right(rotated_left(bits, n), n) == bits,
{
    let len = bits.len() as int;
    if len > 0 {
        let once = rotated_left(bits, n);
        let twice = rotated_right(once, n);
        assert forall|i: int| 0 <= i < len implies twice[i] == bits[i] by {
            let j = (i - n) % len;
            lemma_mod_bound(i - n, len);
            lemma_add_mod_noop(i - n, n, len);
            lemma_mod_twice(i - n, len);
            lemma_add_mod_noop(j, n, len);
            lemma_small_mod(i as nat, len as nat);
            assert((j + n) % len == i);
        }
        assert(twice =~= bits);
    }
}

/// Exclusive or with the same bits twice gives back the bits that one
/// started with.
pub proof fn lemma_xor_twice(bits: Seq<bool>, other: Seq<bool>)
    requires
        bits.len() == other.len(),
    ensures
        combined(BitOp::Xor, combined(BitOp::Xor, bits, other), other) == bits,
{
    assert(combined(BitOp::Xor, combined(BitOp::Xor, bits, other), other) =~= bits);
}

/// A second and, or a second or, with the same bits changes nothing.
pub proof fn lemma_and_or_idempotent(bits: Seq<bool>, other: Seq<bool>)
    requires
        bits.len() == other.len(),
    ensures
        combined(BitOp::And, combined(BitOp::And, bits, other), other) == combined(
            BitOp::And,
            bits,
            other,
        ),
        combined(BitOp::Or, combined(BitOp::Or, bits, other), other) == combined(
            BitOp::Or,
            bits,
            other,
        ),
{
    assert(combined(BitOp::And, combined(BitOp::And, bits, other), other) =~= combined(
        BitOp::And,
        bits,
        other,
    ));
    assert(combined(BitOp::Or, combined(BitOp::Or, bits, other), other) =~= combined(
        BitOp::Or,
        bits,
        other,
    ));
}

/// Inverting twice gives back the bits that one started with.
pub proof fn lemma_invert_twice(bits: Seq<bool>)
    ensures
        Seq::new(bits.len(), |i: int| !Seq::new(bits.len(), |j: int| !bits[j])[i]) == bits,
{
    assert(Seq::new(bits.len(), |i: int| !Seq::new(bits.len(), |j: int| !bits[j])[i]) =~= bits);
}

/// After a fill with `true` every bit is set, after a fill with `false`
/// none is.
pub proof fn lemma_fill_count(len: nat, value: bool)
    ensures
        count_ones_of(Seq::new(len, |i: int| value)) == (if value {
            len
        } else {
            0
        }),
    decreases len,
{
    if len > 0 {
        lemma_fill_count((len - 1) as nat, value);
        assert(Seq::new(len, |i: int| value).drop_last() =~= Seq::new(
            (len - 1) as nat,
            |i: int| value,
        ));
    }
}

impl<'a, T: BitStore, O: BitOrder> BitSliceMut<'a, T, O> {
    /// Sets the `length` bits that start at `from` to `value`.
    pub fn fill_range(&mut self, from: usize, length: usize, value: bool) -> (r: Result<
        (),
        BitError,
    >)
        requires
            old(self).wf(),
        ensures
            final(self).wf(),
            final(self).updates(old(self)),
            final(final(self).mem)@ == final(old(self).mem)@,
            match r {
                Ok(_) => {
                    &&& from + length <= old(self)@.len()
                    &&& final(self)@ == spliced(
                        old(self)@,
                        from as int,
                        Seq::new(length as nat, |i: int| value),
                    )
                },
                Err(e) => {
                    &&& e == BitError::OutOfRange
                    &&& from + length > old(self)@.len()
                    &&& final(self).elements() == old(self).elements()
                },
            },
    {
        let ghost first: int = self.span.first_bit() as int;
        proof {
            lemma_width_positive::<T>();
            self.span.pointer().lemma_target_bit_address(from as int);
            assert(self.buffer() =~= spliced(self.buffer(), first, self@));
        }
        match self.span.subspan(from, length) {
            Ok(part) => {
                let src: Repeat = Repeat { value, len: length };
                combine_span::<T, O, Repeat>(self.mem, part, BitOp::Copy, &src);
                proof {
                    assert(self@ =~= spliced(
                        old(self)@,
                        from as int,
                        Seq::new(length as nat, |i: int| value),
                    ));
                    assert(self.buffer() =~= spliced(old(self).buffer(), first, self@));
                }
                Ok(())
            },
            Err(_) => Err(BitError::OutOfRange),
        }
    }

    /// Turns the bits left by `n` places: the bit number `n` becomes the
    /// first, and the first `n` bits become the last. A number of places
    /// beyond the length goes round the ring.
    pub fn rotate_left(&mut self, n: usize)
        requires
            old(self).wf(),
        ensures
            final(self).wf(),
            final(self).updates(old(self)),
            final(final(self).mem)@ == final(old(self).mem)@,
            final(self)@ == rotated_left(old(self)@, n as int),
    {
        let len: usize = self.span.length();
        let ghost first: int = self.span.first_bit() as int;
        let ghost before: Seq<bool> = self.buffer();
        let ghost bits: Seq<bool> = self@;
        proof {
            assert(self.buffer() =~= spliced(before, first, self@));
        }
        if len == 0 {
            return ;
        }
        let k: usize = n % len;
        if k == 0 {
            proof {
                assert forall|i: int| 0 <= i < len implies #[trigger] rotated_left(
                    bits,
                    n as int,
                )[i] == bits[i] by {
                    lemma_ring_forward(i, n as int, len as int);
                }
                assert(self@ =~= rotated_left(bits, n as int));
            }
            return ;
        }
        let mut saved: Vec<bool> = Vec::new();
        let mut j: usize = 0;
        while j < k
            invariant
                self.wf(),
                self@ == bits,
                len == bits.len(),
                k < len,
                j <= k,
                saved@ == bits.subrange(0, j as int),
            decreases k - j,
        {
            let b: bool = self.read(j);
            saved.push(b);
            proof {
                assert(saved@ =~= bits.subrange(0, j + 1));
            }
            j = j + 1;
        }
        let moved_ok: Result<(), BitError> = self.copy_within(k, 0, len - k);
        let ghost shifted: Seq<bool> = self@;
        let base: usize = len - k;
        let mut m: usize = 0;
        while m < k
            invariant
                self.wf(),
                self.span == old(self).span,
                first == self.span.first_bit(),
                len == bits.len(),
                self@.len() == len,
                0 < k < len,
                base == len - k,
                m <= k,
                saved@ == bits.subrange(0, k as int),
                shifted == moved(bits, k as int, 0, len - k),
                self.elements().len() == old(self).elements().len(),
                self.buffer() == spliced(before, first, self@),
                final(self.mem)@ == final(old(self).mem)@,
                forall|i: int|
                    0 <= i < len ==> self@[i] == (if base <= i < base + m {
                        bits[i - base]
                    } else {
                        shifted[i]
                    }),
            decreases k - m,
        {
            let b: bool = saved[m];
            self.write(base + m, b);
            proof {
                assert(self.buffer() =~= spliced(before, first, self@));
            }
            m = m + 1;
        }
        proof {
            assert forall|i: int| 0 <= i < len implies #[trigger] self@[i] == rotated_left(
                bits,
                n as int,
            )[i] by {
                lemma_ring_forward(i, n as int, len as int);
            }
            assert(self@ =~= rotated_left(bits, n as int));
        }
    }

    /// Turns the bits right by `n` places: the first bit becomes the bit
    /// number `n`, and the last `n` bits become the first. A number of
    /// places beyond the length goes round the ring.
    pub fn rotate_right(&mut self, n: usize)
        requires
            old(self).wf(),
        ensures
            final(self).wf(),
            final(self).updates(old(self)),
            final(final(self).mem)@ == final(old(self).mem)@,
            final(self)@ == rotated_right(old(self)@, n as int),
    {
        let len: usize = self.span.length();
        let ghost bits: Seq<bool> = self@;
        if len == 0 {
            proof {
                assert(self.buffer() =~= spliced(
                    self.buffer(),
                    self.span.first_bit() as int,
                    self@,
                ));
            }
            return ;
        }
        let k: usize = n % len;
        let back: usize = len - k;
        self.rotate_left(back);
        proof {
            assert forall|i: int| 0 <= i < len implies #[trigger] self@[i] == rotated_right(
                bits,
                n as int,
            )[i] by {
                lemma_ring_backward(i, n as int, len as int);
                lemma_ring_forward(i, back as int, len as int);
            }
            assert(self@ =~= rotated_right(bits, n as int));
        }
    }

    /// Moves the bits left by `n` places. The first `n` bits are lost and
    /// the last `n` bits become clear.
    pub fn shift_left(&mut self, n: usize)
        requires
            old(self).wf(),
        ensures
            final(self).wf(),
            final(self).updates(old(self)),
            final(final(self).mem)@ == final(old(self).mem)@,
            final(self)@ == shifted_left(old(self)@, n as int),
    {
        let len: usize = self.span.length();
        let ghost first: int = self.span.first_bit() as int;
        let ghost before: Seq<bool> = self.buffer();
        let ghost bits: Seq<bool> = self@;
        if n >= len {
            self.fill(false);
            proof {
                assert(self@ =~= shifted_left(bits, n as int));
            }
            return ;
        }
        let moved_ok: Result<(), BitError> = self.copy_within(n, 0, len - n);
        let cleared: Result<(), BitError> = self.fill_range(len - n, n, false);
        proof {
            assert(self@ =~= shifted_left(bits, n as int));
            assert(self.buffer() =~= spliced(before, first, self@));
        }
    }

    /// Moves the bits right by `n` places. The last `n` bits are lost and
    /// the first `n` bits become clear.
    pub fn shift_right(&mut self, n: usize)
        requires
            old(self).wf(),
        ensures
            final(self).wf(),
            final(self).updates(old(self)),
            final(final(self).mem)@ == final(old(self).mem)@,
            final(self)@ == shifted_right(old(self)@, n as int),
    {
        let len: usize = self.span.length();
        let ghost first: int = self.span.first_bit() as int;
        let ghost before: Seq<bool> = self.buffer();
        let ghost bits: Seq<bool> = self@;
        if n >= len {
            self.fill(false);
            proof {
                assert(self@ =~= shifted_right(bits, n as int));
            }
            return ;
        }
        let moved_ok: Result<(), BitError> = self.copy_within(0, n, len - n);
        let cleared: Result<(), BitError> = self.fill_range(0, n, false);
        proof {
            assert(self@ =~= shifted_right(bits, n as int));
            assert(self.buffer() =~= spliced(before, first, self@));
        }
    }
}

} // verus!
