//! Shared bit-slices: a borrowed buffer and a span of its bits, for reading.

use vstd::prelude::*;
use core::marker::PhantomData;
use crate::bulk::{BitSource, lemma_within_addressable, span_within};
use crate::domain::{Domain, domain_of};
use crate::index::{BitError, lemma_width_positive};
use crate::mem::{buffer_bits, load_bit, load_word};
use crate::order::{BitOrder, lemma_order_injective};
use crate::ptr::{BitPtr, BitSpan, elem_bytes, max_bits, max_bits_value};
use crate::store::{
    BitStore,
    bit_of,
    lemma_with_bit,
    lemma_with_bit_in_range,
    max_raw,
    supported_width,
    with_bit,
};

verus! {

/// How many bits of a sequence are set.
pub open spec fn count_ones_of(bits: Seq<bool>) -> nat
    decreases bits.len(),
{
    if bits.len() == 0 {
        0
    } else {
        count_ones_of(bits.drop_last()) + if bits.last() {
            1nat
        } else {
            0nat
        }
    }
}

/// How two bit sequences stand to each other, read as words of a dictionary
/// in which `false` comes before `true`.
#[derive(Clone, Copy, Debug, PartialEq, Eq, Structural)]
pub enum Rank {
    Before,
    Same,
    After,
}

/// The rank of `a` against `b`: decided by the first bit in which the two
/// differ, or by the lengths where one is the beginning of the other.
pub open spec fn rank_of(a: Seq<bool>, b: Seq<bool>) -> Rank
    decreases a.len(),
{
    if a.len() == 0 {
        if b.len() == 0 {
            Rank::Same
        } else {
            Rank::Before
        }
    } else if b.len() == 0 {
        Rank::After
    } else if a[0] != b[0] {
        if b[0] {
            Rank::Before
        } else {
            Rank::After
        }
    } else {
        rank_of(a.drop_first(), b.drop_first())
    }
}

/// A shared view of some bits of a borrowed buffer.
///
/// The addresses of its span count from the start of the buffer: the first
/// element of the buffer has the address 0.
pub struct BitSlice<'a, T: BitStore, O: BitOrder> {
    mem: &'a [T],
    span: BitSpan<T>,
    order: PhantomData<O>,
}

impl<'a, T: BitStore, O: BitOrder> Clone for BitSlice<'a, T, O> {
    fn clone(&self) -> (r: Self)
        ensures
            r == *self,
    {
        *self
    }
}

impl<'a, T: BitStore, O: BitOrder> Copy for BitSlice<'a, T, O> {

}

impl<'a, T: BitStore, O: BitOrder> View for BitSlice<'a, T, O> {
    type V = Seq<bool>;

    /// The bits of the slice, in order.
    open spec fn view(&self) -> Seq<bool> {
        self.buffer().subrange(
            self.spec_bitspan().first_bit() as int,
            self.spec_bitspan().end_bit() as int,
        )
    }
}

impl<'a, T: BitStore, O: BitOrder> BitSlice<'a, T, O> {
    /// The elements of the borrowed buffer.
    pub closed spec fn elements(&self) -> Seq<T> {
        self.mem@
    }

    /// The span of the slice inside the buffer.
    pub closed spec fn spec_bitspan(&self) -> BitSpan<T> {
        self.span
    }

    /// All bits of the borrowed buffer.
    pub open spec fn buffer(&self) -> Seq<bool> {
        buffer_bits::<T, O>(self.elements())
    }

    /// The span lies in the buffer, and the buffer holds no more than
    /// `max_bits()` bits.
    #[verifier::type_invariant]
    pub open spec fn wf(self) -> bool {
        span_within(self.spec_bitspan(), self.buffer().len())
    }

    /// Views all bits of `mem`.
    pub fn from_slice(mem: &'a [T]) -> (r: Result<Self, BitError>)
        ensures
            match r {
                Ok(s) => {
                    &&& mem@.len() * T::bits() <= max_bits()
                    &&& s.elements() == mem@
                    &&& s.spec_bitspan().first_bit() == 0
                    &&& s@ == buffer_bits::<T, O>(mem@)
                    &&& s.wf()
                },
                Err(e) => e == BitError::Overflow && mem@.len() * T::bits() > max_bits(),
            },
    {
        let total: usize = match total_bits::<T>(mem.len()) {
            Some(t) => t,
            None => {
                return Err(BitError::Overflow);
            },
        };
        let s: Self = BitSlice { mem, span: BitSpan::from_start(total), order: PhantomData };
        assert(s@ =~= buffer_bits::<T, O>(mem@));
        Ok(s)
    }

    /// Views the bits of `mem` that `span` names. The addresses of `span`
    /// count from the start of `mem`.
    pub fn new(mem: &'a [T], span: BitSpan<T>) -> (r: Result<Self, BitError>)
        ensures
            match r {
                Ok(s) => {
                    &&& mem@.len() * T::bits() <= max_bits()
                    &&& span.end_bit() <= mem@.len() * T::bits()
                    &&& s.elements() == mem@
                    &&& s.spec_bitspan() == span
                    &&& s.wf()
                },
                Err(e) => {
                    ||| e == BitError::Overflow && mem@.len() * T::bits() > max_bits()
                    ||| e == BitError::OutOfRange && mem@.len() * T::bits() <= max_bits()
                        && span.end_bit() > mem@.len() * T::bits()
                },
            },
    {
        let total: usize = match total_bits::<T>(mem.len()) {
            Some(t) => t,
            None => {
                return Err(BitError::Overflow);
            },
        };
        if !span_fits(&span, total) {
            return Err(BitError::OutOfRange);
        }
        proof {
            use_type_invariant(&span);
        }
        Ok(BitSlice { mem, span, order: PhantomData })
    }

    /// Views the bits of `mem` that `span` names, for a span that is known
    /// to lie in `mem`.
    pub fn from_parts(mem: &'a [T], span: BitSpan<T>) -> (s: Self)
        requires
            span_within(span, buffer_bits::<T, O>(mem@).len()),
        ensures
            s.elements() == mem@,
            s.spec_bitspan() == span,
            s.wf(),
    {
        BitSlice { mem, span, order: PhantomData }
    }

    /// The number of bits.
    pub fn len(&self) -> (n: usize)
        ensures
            n == self@.len(),
            n == self.spec_bitspan().spec_length(),
    {
        proof {
            use_type_invariant(self);
        }
        self.span.length()
    }

    /// Whether the slice holds no bit.
    pub fn is_empty(&self) -> (b: bool)
        ensures
            b == (self@.len() == 0),
    {
        proof {
            use_type_invariant(self);
        }
        self.span.is_empty()
    }

    /// The span of the slice inside its buffer.
    #[verifier::when_used_as_spec(spec_bitspan)]
    pub fn as_bitspan(&self) -> (span: BitSpan<T>)
        ensures
            span == self.spec_bitspan(),
            span_within(span, self.buffer().len()),
    {
        proof {
            use_type_invariant(self);
        }
        self.span
    }

    /// The borrowed buffer.
    pub fn as_raw_slice(&self) -> (mem: &'a [T])
        ensures
            mem@ == self.elements(),
    {
        self.mem
    }

    /// The domain of the slice.
    pub fn domain(&self) -> (d: Domain<T>)
        ensures
            d == domain_of(self.spec_bitspan()),
    {
        proof {
            use_type_invariant(self);
            lemma_within_addressable(self.span, self.buffer().len());
        }
        self.span.domain().unwrap()
    }

    /// Reads the bit number `i`.
    pub fn bit_at(&self, i: usize) -> (b: bool)
        requires
            i < self@.len(),
        ensures
            b == self@[i as int],
    {
        proof {
            use_type_invariant(self);
            lemma_width_positive::<T>();
            self.span.pointer().lemma_target_bit_address(i as int);
        }
        let p: BitPtr<T> = self.span.pointer().add(i, 0, usize::MAX).unwrap();
        load_bit::<T, O>(self.mem, p.address(), p.start_index().into_inner())
    }

    /// Reads the bit number `i`, if there is one.
    pub fn get(&self, i: usize) -> (r: Option<bool>)
        ensures
            r == (if i < self@.len() {
                Some(self@[i as int])
            } else {
                None
            }),
    {
        if i < self.len() {
            Some(self.bit_at(i))
        } else {
            None
        }
    }

    /// The part of the slice that starts with the bit number `from` and is
    /// `length` bits long.
    pub fn subslice(&self, from: usize, length: usize) -> (r: Result<Self, BitError>)
        ensures
            match r {
                Ok(s) => {
                    &&& from + length <= self@.len()
                    &&& s@ == self@.subrange(from as int, from + length)
                    &&& s.elements() == self.elements()
                    &&& s.spec_bitspan().first_bit() == self.spec_bitspan().first_bit() + from
                    &&& s.wf()
                },
                Err(e) => e == BitError::OutOfRange && from + length > self@.len(),
            },
    {
        proof {
            use_type_invariant(self);
            lemma_width_positive::<T>();
            self.span.pointer().lemma_target_bit_address(from as int);
        }
        match self.span.subspan(from, length) {
            Ok(span) => {
                let s: Self = BitSlice { mem: self.mem, span, order: PhantomData };
                assert(s@ =~= self@.subrange(from as int, from + length));
                Ok(s)
            },
            Err(_) => Err(BitError::OutOfRange),
        }
    }
}

impl<'a, T: BitStore, O: BitOrder> BitSlice<'a, T, O> {
    /// How many bits of the slice are set. Whole elements that are all clear
    /// or all set are counted at once, the other bits one by one.
    pub fn count_ones(&self) -> (n: usize)
        ensures
            n == count_ones_of(self@),
    {
        proof {
            use_type_invariant(self);
            lemma_width_positive::<T>();
            lemma_within_addressable(self.span, self.buffer().len());
            crate::domain::lemma_domain_layout(self.span);
        }
        let ghost from: int = self.span.first_bit() as int;
        let ghost bits: Seq<bool> = self.buffer();
        if self.span.is_empty() {
            return 0;
        }
        proof {
            assert(bits.subrange(from, from) =~= Seq::<bool>::empty());
        }
        match self.domain() {
            Domain::Enclave(part) => count_partial::<T, O>(self.mem, &part, Ghost(from), 0),
            Domain::Region { head, body, tail } => {
                let mut n: usize = 0;
                match head {
                    Some(part) => {
                        n = count_partial::<T, O>(self.mem, &part, Ghost(from), n);
                    },
                    None => {},
                }
                n = count_body::<T, O>(self.mem, &body, Ghost(from), n);
                match tail {
                    Some(part) => {
                        n = count_partial::<T, O>(self.mem, &part, Ghost(from), n);
                    },
                    None => {},
                }
                n
            },
        }
    }

    /// How many bits of the slice are clear.
    pub fn count_zeros(&self) -> (n: usize)
        ensures
            n == self@.len() - count_ones_of(self@),
    {
        proof {
            lemma_count_ones_bound(self@);
        }
        self.len() - self.count_ones()
    }

    /// Whether the two slices hold the same bits. Slices of different
    /// element types and orders can be compared; two empty slices are equal
    /// wherever they start. Whole elements of this slice are compared at
    /// once with the bits of `other` that stand against them.
    pub fn eq<'b, T2: BitStore, O2: BitOrder>(&self, other: &BitSlice<'b, T2, O2>) -> (b: bool)
        ensures
            b == (self@ == other@),
    {
        proof {
            use_type_invariant(self);
            lemma_width_positive::<T>();
            lemma_within_addressable(self.span, self.buffer().len());
            crate::domain::lemma_domain_layout(self.span);
        }
        let len: usize = self.len();
        if len != other.len() {
            return false;
        }
        if len == 0 {
            assert(self@ =~= other@);
            return true;
        }
        let ghost bits: Seq<bool> = self.buffer();
        let start: usize = 8 * self.span.address() + self.span.start_index().into_inner() as usize;
        let same: bool = match self.domain() {
            Domain::Enclave(part) => same_partial::<T, O, T2, O2>(self.mem, &part, other, start),
            Domain::Region { head, body, tail } => {
                let front: bool = match head {
                    Some(part) => same_partial::<T, O, T2, O2>(self.mem, &part, other, start),
                    None => true,
                };
                let back: bool = front && match tail {
                    Some(part) => same_partial::<T, O, T2, O2>(self.mem, &part, other, start),
                    None => true,
                };
                back && same_body::<T, O, T2, O2>(self.mem, &body, other, start)
            },
        };
        proof {
            if same {
                assert forall|i: int| 0 <= i < len implies self@[i] == other@[i] by {
                    assert(bits[start + i] == other@[start + i - start]);
                }
                assert(self@ =~= other@);
            } else if self@ == other@ {
                assert forall|k: int| start <= k < start + len implies #[trigger] bits[k]
                    == other@[k - start] by {
                    assert(self@[k - start] == bits[k]);
                }
            }
        }
        same
    }

    /// Ranks the slice against `other`, as `rank_of` says.
    pub fn compare<'b, T2: BitStore, O2: BitOrder>(&self, other: &BitSlice<'b, T2, O2>) -> (r:
        Rank)
        ensures
            r == rank_of(self@, other@),
    {
        let mine: usize = self.len();
        let theirs: usize = other.len();
        let mut i: usize = 0;
        proof {
            assert(self@.subrange(0, mine as int) =~= self@);
            assert(other@.subrange(0, theirs as int) =~= other@);
        }
        while i < mine && i < theirs
            invariant
                mine == self@.len(),
                theirs == other@.len(),
                i <= mine,
                i <= theirs,
                rank_of(self@, other@) == rank_of(
                    self@.subrange(i as int, mine as int),
                    other@.subrange(i as int, theirs as int),
                ),
            decreases mine - i,
        {
            let a: bool = self.bit_at(i);
            let b: bool = other.bit_at(i);
            let ghost rest_a = self@.subrange(i as int, mine as int);
            let ghost rest_b = other@.subrange(i as int, theirs as int);
            proof {
                assert(rest_a.drop_first() =~= self@.subrange(i + 1, mine as int));
                assert(rest_b.drop_first() =~= other@.subrange(i + 1, theirs as int));
            }
            if a != b {
                return if b {
                    Rank::Before
                } else {
                    Rank::After
                };
            }
            i = i + 1;
        }
        if mine == theirs {
            Rank::Same
        } else if i == mine {
            Rank::Before
        } else {
            Rank::After
        }
    }

    /// The bits of the slice as a vector of `bool`.
    pub fn to_bools(&self) -> (v: Vec<bool>)
        ensures
            v@ == self@,
    {
        let len: usize = self.len();
        let mut v: Vec<bool> = Vec::new();
        let mut i: usize = 0;
        while i < len
            invariant
                len == self@.len(),
                i <= len,
                v@ == self@.subrange(0, i as int),
            decreases len - i,
        {
            v.push(self.bit_at(i));
            proof {
                assert(v@ =~= self@.subrange(0, i + 1));
            }
            i = i + 1;
        }
        proof {
            assert(self@.subrange(0, len as int) =~= self@);
        }
        v
    }
}

impl<'a, T: BitStore, O: BitOrder> BitSource for BitSlice<'a, T, O> {
    open spec fn source_bits(&self) -> Seq<bool> {
        self@
    }

    fn source_bit(&self, i: usize) -> (b: bool) {
        self.bit_at(i)
    }

    fn source_word<L: BitOrder>(&self, from: usize, width: u8) -> (word: u64) {
        let mut acc: u64 = 0;
        let mut done: u8 = 0;
        let len: usize = self.len();
        proof {
            L::lemma_bijection(width as nat);
            assert forall|i: int| 0 <= i < width implies !bit_of(
                0u64,
                #[trigger] L::at_spec(i as nat, width as nat),
            ) by {
                crate::store::lemma_max_raw_bits(width as nat, L::at_spec(i as nat, width as nat));
            }
        }
        while done < width
            invariant
                supported_width(width as nat),
                from + width <= self@.len(),
                len == self@.len(),
                done <= width,
                acc <= max_raw(width as nat),
                forall|i: int|
                    0 <= i < width ==> bit_of(acc, #[trigger] L::at_spec(i as nat, width as nat))
                        == (i < done && self@[from + i]),
            decreases width - done,
        {
            let b: bool = self.bit_at(from + done as usize);
            if b {
                let pos: u8 = L::at(done, width);
                let ghost prev: u64 = acc;
                acc = acc | (1u64 << (pos as u64));
                proof {
                    L::lemma_bijection(width as nat);
                    lemma_with_bit_in_range(prev, pos as nat, true, width as nat);
                    assert(acc == with_bit(prev, pos as nat, true));
                    assert forall|i: int| 0 <= i < width implies bit_of(
                        acc,
                        #[trigger] L::at_spec(i as nat, width as nat),
                    ) == (i < done + 1 && self@[from + i]) by {
                        lemma_with_bit(
                            prev,
                            pos as nat,
                            true,
                            L::at_spec(i as nat, width as nat),
                        );
                        if L::at_spec(i as nat, width as nat) == pos {
                            lemma_order_injective::<L>(width as nat, i as nat, done as nat);
                        }
                    }
                }
            }
            done = done + 1;
        }
        acc
    }
}

/// Whether the bits of a buffer from `lo` up to `hi` are the bits of `other`
/// that stand against them, where the bit at `start` stands against the
/// first bit of `other`.
pub open spec fn agree(bits: Seq<bool>, other: Seq<bool>, lo: int, hi: int, start: int) -> bool {
    forall|k: int| lo <= k < hi ==> #[trigger] bits[k] == other[k - start]
}

/// Compares the bits `first ..= last` of one element with the bits of
/// `other` that stand against them.
fn same_partial<T: BitStore, O: BitOrder, T2: BitStore, O2: BitOrder>(
    mem: &[T],
    part: &crate::domain::PartialElement<T>,
    other: &BitSlice<'_, T2, O2>,
    start: usize,
) -> (b: bool)
    requires
        part.wf(),
        start <= part.first_bit(),
        part.end_bit() <= buffer_bits::<T, O>(mem@).len() <= max_bits(),
        part.end_bit() - start <= other@.len(),
    ensures
        b == agree(
            buffer_bits::<T, O>(mem@),
            other@,
            part.first_bit() as int,
            part.end_bit() as int,
            start as int,
        ),
{
    proof {
        lemma_width_positive::<T>();
    }
    let ghost bits: Seq<bool> = buffer_bits::<T, O>(mem@);
    let address: usize = part.address;
    let last: u8 = part.last.into_inner();
    let mut idx: u8 = part.first.into_inner();
    while idx <= last
        invariant
            supported_width(T::bits()),
            bits == buffer_bits::<T, O>(mem@),
            address == part.address,
            address as nat % elem_bytes::<T>() == 0,
            last == part.last@,
            last < T::bits(),
            part.first@ <= idx <= last + 1,
            start <= part.first_bit(),
            part.end_bit() <= bits.len() <= max_bits(),
            part.end_bit() - start <= other@.len(),
            agree(bits, other@, part.first_bit() as int, 8 * address + idx, start as int),
        decreases last + 1 - idx,
    {
        let k: usize = 8 * address + idx as usize;
        if load_bit::<T, O>(mem, address, idx) != other.bit_at(k - start) {
            proof {
                assert(bits[k as int] != other@[k - start]);
            }
            return false;
        }
        idx = idx + 1;
    }
    true
}

/// Compares a run of whole elements, one element at a time, with the bits
/// of `other` that stand against them.
fn same_body<T: BitStore, O: BitOrder, T2: BitStore, O2: BitOrder>(
    mem: &[T],
    body: &crate::domain::WholeElements,
    other: &BitSlice<'_, T2, O2>,
    start: usize,
) -> (b: bool)
    requires
        body.address as nat % elem_bytes::<T>() == 0,
        start <= body.first_bit(),
        body.end_bit(T::bits()) <= buffer_bits::<T, O>(mem@).len() <= max_bits(),
        body.end_bit(T::bits()) - start <= other@.len(),
    ensures
        b == agree(
            buffer_bits::<T, O>(mem@),
            other@,
            body.first_bit() as int,
            body.end_bit(T::bits()) as int,
            start as int,
        ),
{
    proof {
        lemma_width_positive::<T>();
    }
    let ghost bits: Seq<bool> = buffer_bits::<T, O>(mem@);
    let width: u8 = T::width();
    let w: usize = width as usize;
    let bytes: usize = crate::ptr::bytes_of::<T>();
    let mut done: usize = 0;
    let mut address: usize = body.address;
    while done < body.count
        invariant
            supported_width(T::bits()),
            bits == buffer_bits::<T, O>(mem@),
            width == T::bits(),
            w == T::bits(),
            bytes == elem_bytes::<T>(),
            8 * bytes == w,
            done <= body.count,
            address as nat % elem_bytes::<T>() == 0,
            8 * address == body.first_bit() + done * w,
            start <= body.first_bit(),
            body.end_bit(T::bits()) <= bits.len() <= max_bits(),
            body.end_bit(T::bits()) - start <= other@.len(),
            agree(bits, other@, body.first_bit() as int, 8 * address, start as int),
        decreases body.count - done,
    {
        proof {
            assert((done + 1) * w == done * w + w) by (nonlinear_arith);
            assert((done + 1) * w <= body.count * w) by (nonlinear_arith)
                requires
                    done + 1 <= body.count,
                    w >= 0,
            ;
            O::lemma_bijection(T::bits());
        }
        let from: usize = 8 * address;
        let mine: u64 = load_word::<T, O>(mem, address);
        let theirs: u64 = other.source_word::<O>(from - start, width);
        if mine != theirs {
            proof {
                if agree(bits, other@, from as int, from + w, start as int) {
                    assert forall|q: nat| q < T::bits() implies bit_of(mine, q) == bit_of(
                        theirs,
                        q,
                    ) by {
                        let j = O::index_of_spec(q, T::bits()) as int;
                        assert(O::at_spec(j as nat, T::bits()) == q);
                        assert(bits[from + j] == other@[from + j - start]);
                        assert(bit_of(mine, O::at_spec(j as nat, T::bits())) == bits[from + j]);
                        assert(bit_of(theirs, O::at_spec(j as nat, width as nat))
                            == other.source_bits()[(from - start) + j]);
                    }
                    crate::store::lemma_bits_determine_raw(mine, theirs, T::bits());
                }
                assert(!agree(bits, other@, from as int, from + w, start as int));
            }
            return false;
        }
        proof {
            assert forall|k: int| from <= k < from + w implies #[trigger] bits[k] == other@[k
                - start] by {
                let j = k - from;
                assert(bit_of(mine, O::at_spec(j as nat, T::bits())) == bits[from + j]);
                assert(bit_of(theirs, O::at_spec(j as nat, width as nat))
                    == other.source_bits()[(from - start) + j]);
            }
            vstd::arithmetic::div_mod::lemma_mod_multiples_vanish(
                1,
                address as int,
                bytes as int,
            );
        }
        address = address + bytes;
        done = done + 1;
    }
    true
}

/// Adds the number of set bits among the bits `first ..= last` of one
/// element to a count of the bits before them.
fn count_partial<T: BitStore, O: BitOrder>(
    mem: &[T],
    part: &crate::domain::PartialElement<T>,
    Ghost(from): Ghost<int>,
    so_far: usize,
) -> (n: usize)
    requires
        part.wf(),
        0 <= from <= part.first_bit(),
        part.end_bit() <= buffer_bits::<T, O>(mem@).len() <= max_bits(),
        so_far == count_ones_of(buffer_bits::<T, O>(mem@).subrange(from, part.first_bit() as int)),
    ensures
        n == count_ones_of(buffer_bits::<T, O>(mem@).subrange(from, part.end_bit() as int)),
{
    proof {
        lemma_width_positive::<T>();
    }
    let ghost bits: Seq<bool> = buffer_bits::<T, O>(mem@);
    let address: usize = part.address;
    let last: u8 = part.last.into_inner();
    let mut idx: u8 = part.first.into_inner();
    let mut n: usize = so_far;
    while idx <= last
        invariant
            supported_width(T::bits()),
            bits == buffer_bits::<T, O>(mem@),
            address == part.address,
            address as nat % elem_bytes::<T>() == 0,
            last == part.last@,
            last < T::bits(),
            part.first@ <= idx <= last + 1,
            0 <= from <= part.first_bit(),
            part.end_bit() <= bits.len() <= max_bits(),
            n == count_ones_of(bits.subrange(from, 8 * address + idx)),
        decreases last + 1 - idx,
    {
        proof {
            lemma_count_ones_bound(bits.subrange(from, 8 * address + idx));
            assert(bits.subrange(from, 8 * address + idx + 1).drop_last() =~= bits.subrange(
                from,
                8 * address + idx,
            ));
        }
        if load_bit::<T, O>(mem, address, idx) {
            n = n + 1;
        }
        idx = idx + 1;
    }
    n
}

/// Adds the number of set bits in a run of whole elements to a count of the
/// bits before them.
fn count_body<T: BitStore, O: BitOrder>(
    mem: &[T],
    body: &crate::domain::WholeElements,
    Ghost(from): Ghost<int>,
    so_far: usize,
) -> (n: usize)
    requires
        body.address as nat % elem_bytes::<T>() == 0,
        0 <= from <= body.first_bit(),
        body.end_bit(T::bits()) <= buffer_bits::<T, O>(mem@).len() <= max_bits(),
        so_far == count_ones_of(buffer_bits::<T, O>(mem@).subrange(from, body.first_bit() as int)),
    ensures
        n == count_ones_of(
            buffer_bits::<T, O>(mem@).subrange(from, body.end_bit(T::bits()) as int),
        ),
{
    proof {
        lemma_width_positive::<T>();
    }
    let ghost bits: Seq<bool> = buffer_bits::<T, O>(mem@);
    let width: u8 = T::width();
    let w: usize = width as usize;
    let bytes: usize = crate::ptr::bytes_of::<T>();
    let full: u64 = crate::store::max_raw_value(width);
    let mut done: usize = 0;
    let mut address: usize = body.address;
    let mut n: usize = so_far;
    while done < body.count
        invariant
            supported_width(T::bits()),
            bits == buffer_bits::<T, O>(mem@),
            width == T::bits(),
            w == T::bits(),
            bytes == elem_bytes::<T>(),
            8 * bytes == w,
            full == max_raw(T::bits()),
            done <= body.count,
            address as nat % elem_bytes::<T>() == 0,
            8 * address == body.first_bit() + done * w,
            0 <= from <= body.first_bit(),
            body.end_bit(T::bits()) <= bits.len() <= max_bits(),
            n == count_ones_of(bits.subrange(from, 8 * address)),
        decreases body.count - done,
    {
        proof {
            assert((done + 1) * w == done * w + w) by (nonlinear_arith);
            assert((done + 1) * w <= body.count * w) by (nonlinear_arith)
                requires
                    done + 1 <= body.count,
                    w >= 0,
            ;
            O::lemma_bijection(T::bits());
            lemma_count_ones_bound(bits.subrange(from, 8 * address));
        }
        let word: u64 = load_word::<T, O>(mem, address);
        if word == 0 {
            proof {
                assert forall|k: int| 8 * address <= k < 8 * address + w implies !bits[k] by {
                    let i = k - 8 * address;
                    assert(bits[8 * address + i] == bit_of(word, O::at_spec(i as nat, T::bits())));
                    crate::store::lemma_max_raw_bits(T::bits(), O::at_spec(i as nat, T::bits()));
                }
                lemma_count_ones_uniform(bits, from, 8 * address, 8 * address + w, false);
            }
        } else if word == full {
            proof {
                assert forall|k: int| 8 * address <= k < 8 * address + w implies bits[k] by {
                    let i = k - 8 * address;
                    assert(bits[8 * address + i] == bit_of(word, O::at_spec(i as nat, T::bits())));
                    crate::store::lemma_max_raw_bits(T::bits(), O::at_spec(i as nat, T::bits()));
                }
                lemma_count_ones_uniform(bits, from, 8 * address, 8 * address + w, true);
            }
            n = n + w;
        } else {
            let part: crate::domain::PartialElement<T> = crate::domain::PartialElement {
                address,
                first: crate::index::BitIdx::min(),
                last: crate::index::BitIdx::max(),
            };
            n = count_partial::<T, O>(mem, &part, Ghost(from), n);
        }
        proof {
            vstd::arithmetic::div_mod::lemma_mod_multiples_vanish(
                1,
                address as int,
                bytes as int,
            );
        }
        address = address + bytes;
        done = done + 1;
    }
    n
}

/// The count of a range whose last part holds only bits of one value.
pub proof fn lemma_count_ones_uniform(bits: Seq<bool>, from: int, mid: int, to: int, value: bool)
    requires
        0 <= from <= mid <= to <= bits.len(),
        forall|k: int| mid <= k < to ==> bits[k] == value,
    ensures
        count_ones_of(bits.subrange(from, to)) == count_ones_of(bits.subrange(from, mid)) + (
        if value {
            to - mid
        } else {
            0
        }),
    decreases to - mid,
{
    if mid < to {
        lemma_count_ones_uniform(bits, from, mid, to - 1, value);
        assert(bits.subrange(from, to).drop_last() =~= bits.subrange(from, to - 1));
    }
}

/// No more bits are set than there are.
pub proof fn lemma_count_ones_bound(bits: Seq<bool>)
    ensures
        count_ones_of(bits) <= bits.len(),
    decreases bits.len(),
{
    if bits.len() > 0 {
        lemma_count_ones_bound(bits.drop_last());
    }
}

/// The number of bits in a buffer of `len` elements, unless it is more than
/// `max_bits()`.
pub fn total_bits<T: BitStore>(len: usize) -> (r: Option<usize>)
    ensures
        match r {
            Some(t) => t == len * T::bits() && t <= max_bits(),
            None => len * T::bits() > max_bits(),
        },
{
    proof {
        lemma_width_positive::<T>();
    }
    let w: usize = T::width() as usize;
    let limit: usize = max_bits_value();
    proof {
        vstd::arithmetic::div_mod::lemma_fundamental_div_mod(limit as int, w as int);
        vstd::arithmetic::div_mod::lemma_mod_bound(limit as int, w as int);
    }
    if len > limit / w {
        proof {
            assert(len * w > limit) by (nonlinear_arith)
                requires
                    len >= limit / w + 1,
                    limit == w * (limit / w) + limit % w,
                    limit % w < w,
                    w > 0,
            ;
        }
        return None;
    }
    proof {
        assert(len * w <= limit) by (nonlinear_arith)
            requires
                len <= limit / w,
                limit == w * (limit / w) + limit % w,
                0 <= limit % w,
                w > 0,
        ;
    }
    Some(len * w)
}

/// Whether `span` ends within the first `total` bits of its address space.
pub fn span_fits<T: BitStore>(span: &BitSpan<T>, total: usize) -> (b: bool)
    ensures
        b == (span.end_bit() <= total),
{
    proof {
        lemma_width_positive::<T>();
    }
    let end: u128 = 8 * (span.address() as u128) + span.start_index().into_inner() as u128
        + span.length() as u128;
    end <= total as u128
}

} // verus!
