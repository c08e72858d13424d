//! Bit pointers and bit spans: an element address, the index of the first
//! live bit in that element, and a length in bits.
//!
//! Addresses count bytes. The bit with index `i` of the element at address
//! `a` has the bit address `8 * a + i`, so that the bits of neighbouring
//! elements follow each other without a gap.

use vstd::prelude::*;
use vstd::arithmetic::div_mod::*;
use vstd::arithmetic::mul::*;
use crate::index::{BitError, BitIdx, lemma_width_positive};
use crate::store::{BitStore, Sharing};

verus! {

/// The size of one element of type `T` in bytes.
pub open spec fn elem_bytes<T: BitStore>() -> nat {
    if T::bits() == 8 {
        1
    } else if T::bits() == 16 {
        2
    } else if T::bits() == 32 {
        4
    } else {
        8
    }
}

/// The largest number of bits that the head index and the length of a span
/// may add up to. The upper seven eighths of the range of `usize` stay free.
pub open spec fn max_bits() -> nat {
    (usize::MAX / 8) as nat
}

/// The size of one element of type `T` in bytes.
pub fn bytes_of<T: BitStore>() -> (b: usize)
    ensures
        b == elem_bytes::<T>(),
        b == 1 || b == 2 || b == 4 || b == 8,
        8 * b == T::bits(),
{
    proof {
        lemma_width_positive::<T>();
    }
    let w: u8 = T::width();
    (w / 8) as usize
}

/// The largest number of bits that a span may reach over, as a value.
pub fn max_bits_value() -> (m: usize)
    ensures
        m == max_bits(),
{
    usize::MAX / 8
}

/// The address of an element and the index of one bit in it.
pub struct BitPtr<T: BitStore> {
    addr: usize,
    head: BitIdx<T>,
}

impl<T: BitStore> Clone for BitPtr<T> {
    fn clone(&self) -> (r: Self)
        ensures
            r == *self,
    {
        *self
    }
}

impl<T: BitStore> Copy for BitPtr<T> {

}

impl<T: BitStore> BitPtr<T> {
    /// The address of the element.
    pub closed spec fn spec_address(&self) -> usize {
        self.addr
    }

    /// The index of the bit inside the element.
    pub closed spec fn spec_start_index(&self) -> BitIdx<T> {
        self.head
    }

    /// A pointer is valid when its address is a multiple of the element size
    /// and its index is below the element width.
    #[verifier::type_invariant]
    pub open spec fn wf(self) -> bool {
        &&& self.spec_address() as nat % elem_bytes::<T>() == 0
        &&& self.spec_start_index().wf()
    }

    /// The position of the bit in the bit address space.
    pub open spec fn bit_address(self) -> nat {
        8 * (self.spec_address() as nat) + self.spec_start_index()@
    }

    /// A pointer is determined by its address and its index.
    pub proof fn lemma_eq(self, other: Self)
        requires
            self.spec_address() == other.spec_address(),
            self.spec_start_index()@ == other.spec_start_index()@,
        ensures
            self == other,
    {
        self.head.lemma_view_injective(other.head);
    }

    /// Builds a pointer from an address and a start index, checking both.
    ///
    /// The address is checked first: a misaligned address is reported as
    /// such whatever the index is.
    pub fn new(address: usize, start_index: u8) -> (r: Result<Self, BitError>)
        ensures
            match r {
                Ok(p) => {
                    &&& address as nat % elem_bytes::<T>() == 0
                    &&& start_index < T::bits()
                    &&& p.spec_address() == address
                    &&& p.spec_start_index()@ == start_index
                    &&& p.wf()
                },
                Err(e) => {
                    ||| address as nat % elem_bytes::<T>() != 0 && e == BitError::Alignment
                    ||| address as nat % elem_bytes::<T>() == 0 && start_index >= T::bits() && e
                        == BitError::Range
                },
            },
    {
        let bytes: usize = bytes_of::<T>();
        if address % bytes != 0 {
            return Err(BitError::Alignment);
        }
        match BitIdx::<T>::new(start_index) {
            Ok(head) => Ok(BitPtr { addr: address, head }),
            Err(_) => Err(BitError::Range),
        }
    }

    /// The address of the element.
    #[verifier::when_used_as_spec(spec_address)]
    pub fn address(&self) -> (a: usize)
        ensures
            a == self.spec_address(),
            a as nat % elem_bytes::<T>() == 0,
    {
        proof {
            use_type_invariant(self);
        }
        self.addr
    }

    /// The index of the bit inside the element.
    #[verifier::when_used_as_spec(spec_start_index)]
    pub fn start_index(&self) -> (i: BitIdx<T>)
        ensures
            i == self.spec_start_index(),
            i.wf(),
    {
        proof {
            use_type_invariant(self);
        }
        self.head
    }

    /// The address of the element that holds the bit `n` bits away.
    pub open spec fn target_address(self, n: int) -> int {
        self.spec_address() + ((self.spec_start_index()@ + n) / (T::bits() as int)) * (
        elem_bytes::<T>() as int)
    }

    /// The index, inside its element, of the bit `n` bits away.
    pub open spec fn target_index(self, n: int) -> int {
        (self.spec_start_index()@ + n) % (T::bits() as int)
    }

    /// Moving by `n` bits moves the bit address by `n`.
    pub proof fn lemma_target_bit_address(self, n: int)
        requires
            self.wf(),
        ensures
            8 * self.target_address(n) + self.target_index(n) == self.bit_address() + n,
            0 <= self.target_index(n) < T::bits(),
            self.target_address(n) % (elem_bytes::<T>() as int) == 0,
    {
        lemma_width_positive::<T>();
        let w: int = T::bits() as int;
        let b: int = elem_bytes::<T>() as int;
        let x: int = self.spec_start_index()@ + n;
        assert(w == 8 * b);
        lemma_fundamental_div_mod(x, w);
        lemma_mod_bound(x, w);
        assert(8 * ((x / w) * b) == w * (x / w)) by (nonlinear_arith)
            requires
                w == 8 * b,
        ;
        lemma_mod_multiples_vanish(x / w, self.spec_address() as int, b);
        assert(b * (x / w) == (x / w) * b) by (nonlinear_arith);
    }

    /// Moves the pointer forward by `n` bits inside a buffer whose first
    /// element is at `first` and whose last element is at `last`.
    pub fn add(self, n: usize, first: usize, last: usize) -> (r: Result<Self, BitError>)
        ensures
            match r {
                Ok(p) => {
                    &&& first <= self.target_address(n as int) <= last
                    &&& p.spec_address() == self.target_address(n as int)
                    &&& p.spec_start_index()@ == self.target_index(n as int)
                    &&& p.wf()
                },
                Err(e) => {
                    &&& e == BitError::OutOfRange
                    &&& !(first <= self.target_address(n as int) <= last)
                },
            },
    {
        proof {
            use_type_invariant(&self);
            lemma_width_positive::<T>();
            self.lemma_target_bit_address(n as int);
        }
        let w: u128 = T::width() as u128;
        let bytes: u128 = bytes_of::<T>() as u128;
        let total: u128 = self.head.into_inner() as u128 + n as u128;
        let steps: u128 = total / w;
        let index: u128 = total % w;
        proof {
            lemma_fundamental_div_mod(total as int, w as int);
            assert(steps * bytes <= total) by (nonlinear_arith)
                requires
                    w * steps <= total,
                    bytes <= w,
                    steps >= 0,
            ;
        }
        let target: u128 = self.addr as u128 + steps * bytes;
        if target < first as u128 || target > last as u128 {
            return Err(BitError::OutOfRange);
        }
        Ok(BitPtr { addr: target as usize, head: BitIdx::in_range(index as u8) })
    }

    /// Moves the pointer by `n` bits, forward or backward, inside a buffer
    /// whose first element is at `first` and whose last element is at `last`.
    pub fn offset(self, n: isize, first: usize, last: usize) -> (r: Result<Self, BitError>)
        ensures
            match r {
                Ok(p) => {
                    &&& first <= self.target_address(n as int) <= last
                    &&& p.spec_address() == self.target_address(n as int)
                    &&& p.spec_start_index()@ == self.target_index(n as int)
                    &&& p.wf()
                },
                Err(e) => {
                    &&& e == BitError::OutOfRange
                    &&& !(first <= self.target_address(n as int) <= last)
                },
            },
    {
        if n >= 0 {
            return self.add(n as usize, first, last);
        }
        proof {
            use_type_invariant(&self);
            lemma_width_positive::<T>();
            self.lemma_target_bit_address(n as int);
        }
        let w: u128 = T::width() as u128;
        let bytes: u128 = bytes_of::<T>() as u128;
        let head: u128 = self.head.into_inner() as u128;
        let back: u128 = (-(n as i128)) as u128;
        if back <= head {
            let index: u128 = head - back;
            proof {
                lemma_fundamental_div_mod_converse(index as int, w as int, 0, index as int);
            }
            if self.addr < first || self.addr > last {
                return Err(BitError::OutOfRange);
            }
            return Ok(BitPtr { addr: self.addr, head: BitIdx::in_range(index as u8) });
        }
        let deficit: u128 = back - head;
        let steps: u128 = (deficit + (w - 1)) / w;
        let rest: u128 = (deficit + (w - 1)) % w;
        let index: u128 = w - 1 - rest;
        proof {
            lemma_fundamental_div_mod((deficit + (w - 1)) as int, w as int);
            assert(w * steps == steps * w) by (nonlinear_arith);
            assert((head as int) + (n as int) == (-(steps as int)) * (w as int) + (index as int))
                by (nonlinear_arith)
                requires
                    deficit + (w - 1) == steps * w + rest,
                    index == w - 1 - rest,
                    deficit == -(n as int) - head,
            ;
            lemma_fundamental_div_mod_converse(
                (head as int) + (n as int),
                w as int,
                -(steps as int),
                index as int,
            );
            assert((-(steps as int)) * (bytes as int) == -((steps * bytes) as int))
                by (nonlinear_arith);
            assert(steps * bytes <= steps * w) by (nonlinear_arith)
                requires
                    bytes <= w,
                    steps >= 0,
            ;
        }
        let down: u128 = steps * bytes;
        if down > self.addr as u128 {
            return Err(BitError::OutOfRange);
        }
        let target: u128 = self.addr as u128 - down;
        if target < first as u128 || target > last as u128 {
            return Err(BitError::OutOfRange);
        }
        Ok(BitPtr { addr: target as usize, head: BitIdx::in_range(index as u8) })
    }
}

/// A bit pointer and a length: a half-open range of bits that starts at the
/// pointer. A span of length zero holds no bit and still has a position.
pub struct BitSpan<T: BitStore> {
    ptr: BitPtr<T>,
    len: usize,
}

impl<T: BitStore> Clone for BitSpan<T> {
    fn clone(&self) -> (r: Self)
        ensures
            r == *self,
    {
        *self
    }
}

impl<T: BitStore> Copy for BitSpan<T> {

}

impl<T: BitStore> BitSpan<T> {
    /// The pointer to the first bit.
    pub closed spec fn spec_pointer(&self) -> BitPtr<T> {
        self.ptr
    }

    /// The number of bits.
    pub closed spec fn spec_length(&self) -> usize {
        self.len
    }

    /// The address of the element that holds the first bit.
    pub open spec fn spec_address(&self) -> usize {
        self.spec_pointer().spec_address()
    }

    /// The index of the first bit inside its element.
    pub open spec fn spec_start_index(&self) -> BitIdx<T> {
        self.spec_pointer().spec_start_index()
    }

    /// A span is valid when its pointer is and when its start index and its
    /// length together stay within `max_bits()`.
    #[verifier::type_invariant]
    pub open spec fn wf(self) -> bool {
        &&& self.spec_pointer().wf()
        &&& self.spec_start_index()@ + self.spec_length() <= max_bits()
    }

    /// The bit address of the first bit.
    pub open spec fn first_bit(self) -> nat {
        self.spec_pointer().bit_address()
    }

    /// The bit address one past the last bit.
    pub open spec fn end_bit(self) -> nat {
        self.first_bit() + self.spec_length() as nat
    }

    /// The bit addresses of the bits of the span, in order.
    pub open spec fn positions(self) -> Seq<nat> {
        Seq::new(self.spec_length() as nat, |i: int| (self.first_bit() + i) as nat)
    }

    /// The number of elements that hold a bit of the span.
    pub open spec fn spec_elements(&self) -> nat {
        if self.spec_length() == 0 {
            0
        } else {
            ((self.spec_start_index()@ + self.spec_length() + T::bits() - 1) / (
            T::bits() as int)) as nat
        }
    }

    /// A span is determined by its pointer and its length.
    pub proof fn lemma_eq(self, other: Self)
        requires
            self.spec_pointer() == other.spec_pointer(),
            self.spec_length() == other.spec_length(),
        ensures
            self == other,
    {
    }

    /// Builds a span of `length` bits that starts at `ptr`.
    pub fn new(ptr: BitPtr<T>, length: usize) -> (r: Result<Self, BitError>)
        ensures
            match r {
                Ok(s) => {
                    &&& ptr.spec_start_index()@ + length <= max_bits()
                    &&& s.spec_pointer() == ptr
                    &&& s.spec_length() == length
                    &&& s.wf()
                },
                Err(e) => {
                    &&& e == BitError::Overflow
                    &&& ptr.spec_start_index()@ + length > max_bits()
                },
            },
    {
        proof {
            use_type_invariant(&ptr);
            lemma_width_positive::<T>();
        }
        let head: usize = ptr.start_index().into_inner() as usize;
        let limit: usize = max_bits_value();
        if length > limit || head > limit - length {
            return Err(BitError::Overflow);
        }
        Ok(BitSpan { ptr, len: length })
    }

    /// The span of `length` bits that starts with the first bit of the
    /// element at address 0.
    pub fn from_start(length: usize) -> (s: Self)
        requires
            length <= max_bits(),
        ensures
            s.spec_address() == 0,
            s.spec_start_index()@ == 0,
            s.spec_length() == length,
            s.wf(),
    {
        proof {
            lemma_width_positive::<T>();
        }
        BitSpan { ptr: BitPtr { addr: 0, head: BitIdx::min() }, len: length }
    }

    /// The pointer to the first bit.
    #[verifier::when_used_as_spec(spec_pointer)]
    pub fn pointer(&self) -> (p: BitPtr<T>)
        ensures
            p == self.spec_pointer(),
            p.wf(),
    {
        proof {
            use_type_invariant(self);
        }
        self.ptr
    }

    /// The address of the element that holds the first bit.
    #[verifier::when_used_as_spec(spec_address)]
    pub fn address(&self) -> (a: usize)
        ensures
            a == self.spec_address(),
            a as nat % elem_bytes::<T>() == 0,
    {
        proof {
            use_type_invariant(self);
        }
        self.ptr.address()
    }

    /// The index of the first bit inside its element.
    #[verifier::when_used_as_spec(spec_start_index)]
    pub fn start_index(&self) -> (i: BitIdx<T>)
        ensures
            i == self.spec_start_index(),
            i.wf(),
    {
        proof {
            use_type_invariant(self);
        }
        self.ptr.start_index()
    }

    /// The number of bits.
    #[verifier::when_used_as_spec(spec_length)]
    pub fn length(&self) -> (n: usize)
        ensures
            n == self.spec_length(),
            self.spec_start_index()@ + n <= max_bits(),
    {
        proof {
            use_type_invariant(self);
        }
        self.len
    }

    /// Whether the span holds no bit.
    pub fn is_empty(&self) -> (b: bool)
        ensures
            b == (self.spec_length() == 0),
    {
        self.len == 0
    }

    /// The number of elements that hold a bit of the span.
    pub fn elements(&self) -> (n: usize)
        ensures
            n == self.spec_elements(),
    {
        proof {
            use_type_invariant(self);
            lemma_width_positive::<T>();
        }
        if self.len == 0 {
            return 0;
        }
        let w: usize = T::width() as usize;
        let head: usize = self.ptr.start_index().into_inner() as usize;
        (head + self.len + (w - 1)) / w
    }

    /// The part of the span that starts `from` bits in and is `length` bits
    /// long. The pointer is moved; of the three parts only the length is
    /// checked again.
    pub fn subspan(&self, from: usize, length: usize) -> (r: Result<Self, BitError>)
        ensures
            match r {
                Ok(s) => {
                    &&& from + length <= self.spec_length()
                    &&& s.first_bit() == self.first_bit() + from
                    &&& s.spec_length() == length
                    &&& s.wf()
                },
                Err(e) => {
                    &&& e == BitError::OutOfRange
                    &&& (from + length > self.spec_length() || self.spec_pointer().target_address(
                        from as int,
                    ) > usize::MAX)
                },
            },
    {
        proof {
            use_type_invariant(self);
            lemma_width_positive::<T>();
            self.ptr.lemma_target_bit_address(from as int);
        }
        if from > self.len || length > self.len - from {
            return Err(BitError::OutOfRange);
        }
        proof {
            let w: int = T::bits() as int;
            let x: int = self.ptr.spec_start_index()@ + from;
            lemma_fundamental_div_mod(x, w);
            assert(0 <= w * (x / w)) by {
                lemma_div_pos_is_pos(x, w);
                lemma_mul_nonnegative(w, x / w);
            }
            assert(0 <= (x / w) * (elem_bytes::<T>() as int)) by {
                lemma_div_pos_is_pos(x, w);
                lemma_mul_nonnegative(x / w, elem_bytes::<T>() as int);
            }
        }
        match self.ptr.add(from, self.ptr.address(), usize::MAX) {
            Ok(ptr) => Ok(BitSpan { ptr, len: length }),
            Err(_) => Err(BitError::OutOfRange),
        }
    }

    /// Whether writes through this span and through `other` cannot race: the
    /// two touch no common element, or the element type is `Shared`.
    pub fn aliasing_free(&self, other: &Self) -> (b: bool)
        ensures
            b == (T::sharing_mode() == Sharing::Shared || self.spec_elements() == 0
                || other.spec_elements() == 0 || self.spec_address() + self.spec_elements()
                * elem_bytes::<T>() <= other.spec_address() || other.spec_address()
                + other.spec_elements() * elem_bytes::<T>() <= self.spec_address()),
    {
        proof {
            use_type_invariant(self);
            use_type_invariant(other);
            lemma_width_positive::<T>();
        }
        match T::sharing() {
            Sharing::Shared => {
                return true;
            },
            Sharing::Exclusive => {},
        }
        let mine: usize = self.elements();
        let theirs: usize = other.elements();
        if mine == 0 || theirs == 0 {
            return true;
        }
        let bytes: u128 = bytes_of::<T>() as u128;
        proof {
            assert(mine * bytes <= mine * 8) by (nonlinear_arith)
                requires
                    bytes <= 8,
                    mine >= 0,
            ;
            assert(theirs * bytes <= theirs * 8) by (nonlinear_arith)
                requires
                    bytes <= 8,
                    theirs >= 0,
            ;
        }
        let my_end: u128 = self.ptr.address() as u128 + mine as u128 * bytes;
        let their_end: u128 = other.ptr.address() as u128 + theirs as u128 * bytes;
        my_end <= other.ptr.address() as u128 || their_end <= self.ptr.address() as u128
    }
}

/// The address that the packed form `ptr_word` holds for elements of `T`:
/// the word without the low bits that an aligned address leaves free.
pub open spec fn decoded_address<T: BitStore>(ptr_word: usize) -> nat {
    (ptr_word - ptr_word as nat % elem_bytes::<T>()) as nat
}

/// The start index that a packed form holds: its upper bits are the low bits
/// of the pointer word, its lower three bits those of the length word.
pub open spec fn decoded_index<T: BitStore>(ptr_word: usize, len_word: usize) -> nat {
    (ptr_word as nat % elem_bytes::<T>()) * 8 + len_word as nat % 8
}

/// The length that the packed form `len_word` holds.
pub open spec fn decoded_length(len_word: usize) -> nat {
    len_word as nat / 8
}

impl<T: BitStore> BitSpan<T> {
    /// The span packed into two words, the size of a reference to a slice.
    /// The pointer word is the address with the upper bits of the start
    /// index in its free low bits; the length word is the length, moved up
    /// by three bits, with the lower three bits of the start index.
    pub open spec fn spec_encode(self) -> (usize, usize) {
        (
            (self.spec_address() + self.spec_start_index()@ / 8) as usize,
            (self.spec_length() * 8 + self.spec_start_index()@ % 8) as usize,
        )
    }

    /// Unpacking a packed span gives back its address, its start index and
    /// its length. Both words of the packed form fit a `usize`.
    pub proof fn lemma_encode_decode(self)
        requires
            self.wf(),
        ensures
            self.spec_address() + self.spec_start_index()@ / 8 <= usize::MAX,
            self.spec_length() * 8 + self.spec_start_index()@ % 8 <= usize::MAX,
            decoded_address::<T>(self.spec_encode().0) == self.spec_address(),
            decoded_index::<T>(self.spec_encode().0, self.spec_encode().1)
                == self.spec_start_index()@,
            decoded_length(self.spec_encode().1) == self.spec_length(),
    {
        lemma_width_positive::<T>();
        let b = elem_bytes::<T>() as int;
        let addr = self.spec_address() as int;
        let head = self.spec_start_index()@ as int;
        let len = self.spec_length() as int;
        let top = usize::MAX as int;
        assert(top == 0xffff_ffff || top == 0xffff_ffff_ffff_ffff) by {
            assert(usize::BITS == 32 || usize::BITS == 64);
        }
        assert(b == 1 || b == 2 || b == 4 || b == 8);
        assert(top % b == b - 1) by {
            if b == 1 {
                assert(top % 1 == 0);
            } else if b == 2 {
                assert(top % 2 == 1);
            } else if b == 4 {
                assert(top % 4 == 3);
            } else {
                assert(top % 8 == 7);
            }
        }
        assert(0 <= head / 8 < b);
        assert(b * (addr / b) == (addr / b) * b) by (nonlinear_arith);
        lemma_fundamental_div_mod(addr, b);
        lemma_fundamental_div_mod(top, b);
        assert(addr + (b - 1) <= top) by {
            if addr + (b - 1) > top {
                assert(addr / b > top / b) by (nonlinear_arith)
                    requires
                        addr == b * (addr / b),
                        top == b * (top / b) + (b - 1),
                        addr + (b - 1) > top,
                        b > 0,
                ;
                assert(b * (addr / b) >= b * (top / b) + b) by (nonlinear_arith)
                    requires
                        addr / b >= top / b + 1,
                        b > 0,
                ;
            }
        }
        let word = addr + head / 8;
        lemma_fundamental_div_mod_converse(word, b, addr / b, head / 8);
        lemma_fundamental_div_mod_converse(len * 8 + head % 8, 8, len, head % 8);
    }

    /// Packs the span into two words.
    pub fn encode(&self) -> (words: (usize, usize))
        ensures
            words == self.spec_encode(),
            decoded_address::<T>(words.0) == self.spec_address(),
            decoded_index::<T>(words.0, words.1) == self.spec_start_index()@,
            decoded_length(words.1) == self.spec_length(),
    {
        proof {
            use_type_invariant(self);
            self.lemma_encode_decode();
        }
        let head: usize = self.ptr.start_index().into_inner() as usize;
        (self.ptr.address() + head / 8, self.len * 8 + head % 8)
    }

    /// Unpacks a span from two words. Every pair of words holds an aligned
    /// address and a start index below the element width; a pair is refused
    /// only where the start index and the length together pass `max_bits()`.
    pub fn decode(ptr_word: usize, len_word: usize) -> (r: Result<Self, BitError>)
        ensures
            match r {
                Ok(s) => {
                    &&& s.spec_address() == decoded_address::<T>(ptr_word)
                    &&& s.spec_start_index()@ == decoded_index::<T>(ptr_word, len_word)
                    &&& s.spec_length() == decoded_length(len_word)
                    &&& s.wf()
                },
                Err(e) => {
                    &&& e == BitError::Overflow
                    &&& decoded_index::<T>(ptr_word, len_word) + decoded_length(len_word)
                        > max_bits()
                },
            },
    {
        proof {
            lemma_width_positive::<T>();
        }
        let bytes: usize = bytes_of::<T>();
        let low: usize = ptr_word % bytes;
        let address: usize = ptr_word - low;
        let head: usize = low * 8 + len_word % 8;
        let length: usize = len_word / 8;
        proof {
            lemma_fundamental_div_mod(ptr_word as int, bytes as int);
            lemma_mod_multiples_basic(ptr_word as int / bytes as int, bytes as int);
            assert(bytes * (ptr_word as int / bytes as int) == (ptr_word as int / bytes as int)
                * bytes) by (nonlinear_arith);
        }
        let ptr: BitPtr<T> = BitPtr { addr: address, head: BitIdx::in_range(head as u8) };
        BitSpan::new(ptr, length)
    }
}

} // verus!
