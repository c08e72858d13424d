//! Packing a list of `bool` values into elements.

use vstd::prelude::*;
use crate::array::{BitArray, holds_bits};
use crate::index::lemma_width_positive;
use crate::mem::{buffer_bits, elem_bit, elts, elts_spec, lemma_buffer_position};
use crate::order::{BitOrder, lemma_order_injective};
use crate::store::{BitStore, lemma_max_raw_bits, lemma_with_bit, max_raw_value, set_bit};

verus! {

/// The bit number `k` of a list that is followed by clear bits without end.
pub open spec fn padded(bits: Seq<bool>, k: int) -> bool {
    0 <= k < bits.len() && bits[k]
}

/// Packs the bits of `bits` from the number `from` on into one element: the
/// bit with the index `j` of the element is the bit number `from + j` of the
/// list, and clear where the list has ended.
pub fn pack<T: BitStore, O: BitOrder>(bits: &[bool], from: usize) -> (e: T)
    requires
        from <= bits@.len(),
    ensures
        forall|j: int| 0 <= j < T::bits() ==> #[trigger] elem_bit::<T, O>(e, j as nat) == padded(bits@, from + j),
{
    proof {
        lemma_width_positive::<T>();
        O::lemma_bijection(T::bits());
    }
    let width: u8 = T::width();
    let len: usize = bits.len();
    let mut e: T = T::from_raw(0);
    let mut i: u8 = 0;
    proof {
        assert forall|j: int| 0 <= j < T::bits() implies !#[trigger] elem_bit::<T, O>(e, j as nat) by {
            lemma_max_raw_bits(T::bits(), O::at_spec(j as nat, T::bits()));
        }
    }
    while i < width && (i as usize) < len - from
        invariant
            crate::store::supported_width(T::bits()),
            width == T::bits(),
            len == bits@.len(),
            from <= len,
            i <= width,
            forall|j: int|
                0 <= j < T::bits() ==> #[trigger] elem_bit::<T, O>(e, j as nat) == (j < i && padded(
                    bits@,
                    from + j,
                )),
        decreases width - i,
    {
        if bits[from + i as usize] {
            let pos: u8 = O::at(i, width);
            let ghost prev: T = e;
            set_bit(&mut e, pos, true);
            proof {
                O::lemma_bijection(T::bits());
                assert forall|j: int| 0 <= j < T::bits() implies #[trigger] elem_bit::<T, O>(
                    e,
                    j as nat,
                ) == (j < i + 1 && padded(bits@, from + j)) by {
                    assert(elem_bit::<T, O>(prev, j as nat) == (j < i && padded(bits@, from + j)));
                    lemma_with_bit(
                        prev.raw(),
                        pos as nat,
                        true,
                        O::at_spec(j as nat, T::bits()),
                    );
                    if O::at_spec(j as nat, T::bits()) == pos {
                        lemma_order_injective::<O>(T::bits(), j as nat, i as nat);
                    }
                }
            }
        }
        i = i + 1;
    }
    e
}

/// Packs up to one element's worth of bits into an element; the indices
/// past the end of the list are clear. A longer list does not fit.
pub fn make_elem<T: BitStore, O: BitOrder>(bits: &[bool]) -> (r: Option<T>)
    ensures
        match r {
            Some(e) => {
                &&& bits@.len() <= T::bits()
                &&& forall|j: int|
                    0 <= j < T::bits() ==> #[trigger] elem_bit::<T, O>(e, j as nat) == padded(bits@, j)
            },
            None => bits@.len() > T::bits(),
        },
{
    if bits.len() > T::width() as usize {
        return None;
    }
    Some(pack::<T, O>(bits, 0))
}

/// Packs a list of bits into as many elements as it takes; the bits of the
/// last element past the end of the list are clear.
pub fn encode_bits<T: BitStore, O: BitOrder>(bits: &[bool]) -> (v: Vec<T>)
    ensures
        v@.len() == elts_spec(bits@.len(), T::bits()),
        forall|k: int|
            0 <= k < buffer_bits::<T, O>(v@).len() ==> #[trigger] buffer_bits::<T, O>(v@)[k] == padded(
                bits@,
                k,
            ),
{
    proof {
        lemma_width_positive::<T>();
    }
    let w: usize = T::width() as usize;
    let len: usize = bits.len();
    let count: usize = elts::<T>(len);
    let mut v: Vec<T> = Vec::new();
    let mut n: usize = 0;
    let mut from: usize = 0;
    while n < count
        invariant
            crate::store::supported_width(T::bits()),
            w == T::bits(),
            len == bits@.len(),
            count == elts_spec(len as nat, T::bits()),
            count * T::bits() < len + T::bits(),
            n <= count,
            v@.len() == n,
            n < count ==> from == n * w,
            forall|e: int, j: int|
                0 <= e < n && 0 <= j < T::bits() ==> #[trigger] elem_bit::<T, O>(v@[e], j as nat)
                    == padded(bits@, e * T::bits() + j),
        decreases count - n,
    {
        proof {
            assert((n + 1) * w <= count * w) by (nonlinear_arith)
                requires
                    n + 1 <= count,
                    w > 0,
            ;
            assert((n + 1) * w == n * w + w) by (nonlinear_arith);
            if n + 1 < count {
                assert((n + 2) * w <= count * w) by (nonlinear_arith)
                    requires
                        n + 2 <= count,
                        w > 0,
                ;
                assert((n + 2) * w == n * w + w + w) by (nonlinear_arith);
            }
        }
        let e: T = pack::<T, O>(bits, from);
        v.push(e);
        n = n + 1;
        if n < count {
            from = from + w;
        }
    }
    proof {
        assert forall|k: int| 0 <= k < buffer_bits::<T, O>(v@).len() implies #[trigger] buffer_bits::<
            T,
            O,
        >(v@)[k] == padded(bits@, k) by {
            lemma_buffer_position::<T, O>(v@, k);
            let e = k / (T::bits() as int);
            let j = k % (T::bits() as int);
            assert(elem_bit::<T, O>(v@[e], j as nat) == padded(bits@, e * T::bits() + j));
        }
    }
    v
}

/// A buffer of `count` elements with all bits equal to `bit`.
pub fn repeat_elem<T: BitStore, O: BitOrder>(bit: bool, count: usize) -> (v: Vec<T>)
    ensures
        v@.len() == count,
        buffer_bits::<T, O>(v@) == Seq::new(buffer_bits::<T, O>(v@).len(), |k: int| bit),
{
    proof {
        lemma_width_positive::<T>();
    }
    let word: u64 = if bit {
        max_raw_value(T::width())
    } else {
        0
    };
    let mut v: Vec<T> = Vec::new();
    let mut n: usize = 0;
    while n < count
        invariant
            crate::store::supported_width(T::bits()),
            word == (if bit {
                crate::store::max_raw(T::bits())
            } else {
                0
            }),
            n <= count,
            v@.len() == n,
            forall|e: int| 0 <= e < n ==> (#[trigger] v@[e]).raw() == word,
        decreases count - n,
    {
        v.push(T::from_raw(word));
        n = n + 1;
    }
    proof {
        assert forall|k: int| 0 <= k < buffer_bits::<T, O>(v@).len() implies buffer_bits::<T, O>(
            v@,
        )[k] == bit by {
            lemma_buffer_position::<T, O>(v@, k);
            O::lemma_bijection(T::bits());
            let e = k / (T::bits() as int);
            let j = (k % (T::bits() as int)) as nat;
            assert(v@[e].raw() == word);
            lemma_max_raw_bits(T::bits(), O::at_spec(j, T::bits()));
        }
        assert(buffer_bits::<T, O>(v@) =~= Seq::new(
            buffer_bits::<T, O>(v@).len(),
            |k: int| bit,
        ));
    }
    v
}

impl<T: BitStore, O: BitOrder, const N: usize> BitArray<T, O, N> {
    /// The bit-array of the `N` bits of `bits`; the bits of its buffer past
    /// the end of the array are clear. There is none where `bits` does not
    /// hold `N` bits, or where `N` bits are more than a span can reach over.
    pub fn from_bits(bits: &[bool]) -> (r: Option<Self>)
        ensures
            match r {
                Some(a) => {
                    &&& bits@.len() == N
                    &&& a.wf()
                    &&& a@ == bits@
                    &&& forall|k: int| N <= k < a.buffer().len() ==> !#[trigger] a.buffer()[k]
                },
                None => bits@.len() != N || !holds_bits::<T>(
                    elts_spec(N as nat, T::bits()),
                    N as nat,
                ),
            },
    {
        if bits.len() != N {
            return None;
        }
        let data: Vec<T> = encode_bits::<T, O>(bits);
        match BitArray::try_new(data) {
            Some(a) => {
                proof {
                    a.lemma_wf();
                    assert(a@ =~= bits@);
                }
                Some(a)
            },
            None => None,
        }
    }

    /// The bit-array with every bit of its buffer equal to `bit`, those past
    /// the end of the array included. There is none where `N` bits are more
    /// than a span can reach over.
    pub fn repeat(bit: bool) -> (r: Option<Self>)
        ensures
            match r {
                Some(a) => {
                    &&& a.wf()
                    &&& a@ == Seq::new(N as nat, |k: int| bit)
                    &&& a.buffer() == Seq::new(a.buffer().len(), |k: int| bit)
                },
                None => !holds_bits::<T>(elts_spec(N as nat, T::bits()), N as nat),
            },
    {
        let count: usize = elts::<T>(N);
        if !crate::array::check_holds_bits::<T>(count, N) {
            return None;
        }
        let data: Vec<T> = repeat_elem::<T, O>(bit, count);
        match BitArray::try_new(data) {
            Some(a) => {
                proof {
                    a.lemma_wf();
                    assert(a@ =~= Seq::new(N as nat, |k: int| bit));
                }
                Some(a)
            },
            None => None,
        }
    }
}

} // verus!
