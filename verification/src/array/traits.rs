//! Copies, comparisons and conversions of bit-arrays, and the error of the
//! conversion from a bit-slice.

use vstd::prelude::*;
use vstd::string::*;
use core::cmp::Ordering;
use crate::array::{BitArray, holds_bits};
use crate::index::lemma_width_positive;
use crate::mem::{elts, lemma_buffer_bit};
use crate::order::BitOrder;
use crate::ptr::{bytes_of, elem_bytes};
use crate::slice::{BitSlice, Rank, rank_of};
use crate::store::BitStore;

verus! {

/// Why a bit-slice cannot be viewed as a bit-array.
#[derive(Clone, Copy, PartialEq, Eq, Structural, PartialOrd, Ord, Hash)]
pub enum InnerError {
    /// The bit-slice has `actual` bits and the bit-array has `expected`.
    UnequalLen { actual: usize, expected: usize },
    /// The bit-slice does not begin with the first bit of an element.
    Misaligned,
}

/// The error of the conversion from a bit-slice to a bit-array.
#[derive(Clone, Copy, PartialEq, Eq, Structural, PartialOrd, Ord)]
pub struct TryFromBitSliceError(InnerError);

/// The error, if any, of viewing a slice as an array of `expected` bits,
/// for a slice of `actual` bits that begins at the index `head` of its first
/// element. The start is looked at first: a slice that begins inside an
/// element is misaligned whatever its length is.
pub open spec fn conversion_error(head: nat, actual: usize, expected: usize) -> Option<InnerError> {
    if head != 0 {
        Some(InnerError::Misaligned)
    } else if actual != expected {
        Some(InnerError::UnequalLen { actual, expected })
    } else {
        None
    }
}

impl InnerError {
    /// Checks whether a bit-slice can be viewed as a bit-array of `N` bits.
    pub fn new<T: BitStore, O: BitOrder, const N: usize>(bits: &BitSlice<'_, T, O>) -> (r: Result<
        (),
        Self,
    >)
        ensures
            match r {
                Ok(_) => conversion_error(
                    bits.spec_bitspan().spec_start_index()@,
                    bits.spec_bitspan().spec_length(),
                    N,
                ) is None,
                Err(e) => conversion_error(
                    bits.spec_bitspan().spec_start_index()@,
                    bits.spec_bitspan().spec_length(),
                    N,
                ) == Some(e),
            },
    {
        let bitspan = bits.as_bitspan();
        let actual: usize = bitspan.length();
        let expected: usize = N;
        if bitspan.start_index().into_inner() != 0 {
            return Err(InnerError::Misaligned);
        }
        if actual != expected {
            return Err(InnerError::UnequalLen { actual, expected });
        }
        Ok(())
    }
}

impl TryFromBitSliceError {
    /// The reason of the error.
    pub closed spec fn reason(&self) -> InnerError {
        self.0
    }

    /// Checks whether a bit-slice can be viewed as a bit-array of `N` bits.
    pub fn new<T: BitStore, O: BitOrder, const N: usize>(bits: &BitSlice<'_, T, O>) -> (r: Result<
        (),
        Self,
    >)
        ensures
            match r {
                Ok(_) => conversion_error(
                    bits.spec_bitspan().spec_start_index()@,
                    bits.spec_bitspan().spec_length(),
                    N,
                ) is None,
                Err(e) => conversion_error(
                    bits.spec_bitspan().spec_start_index()@,
                    bits.spec_bitspan().spec_length(),
                    N,
                ) == Some(e.reason()),
            },
    {
        match InnerError::new::<T, O, N>(bits) {
            Ok(_) => Ok(()),
            Err(e) => Err(TryFromBitSliceError(e)),
        }
    }

    /// The error with the given reason.
    pub fn from_reason(reason: InnerError) -> (e: Self)
        ensures
            e.reason() == reason,
    {
        TryFromBitSliceError(reason)
    }

    /// The reason of the error.
    #[verifier::when_used_as_spec(reason)]
    pub fn inner(&self) -> (e: InnerError)
        ensures
            e == self.reason(),
    {
        self.0
    }
}

/// The character of one decimal digit.
pub open spec fn digit_char(d: nat) -> char {
    if d == 0 {
        '0'
    } else if d == 1 {
        '1'
    } else if d == 2 {
        '2'
    } else if d == 3 {
        '3'
    } else if d == 4 {
        '4'
    } else if d == 5 {
        '5'
    } else if d == 6 {
        '6'
    } else if d == 7 {
        '7'
    } else if d == 8 {
        '8'
    } else {
        '9'
    }
}

/// A number written in decimal digits, without leading zeros.
pub open spec fn decimal_digits(n: nat) -> Seq<char>
    decreases n,
{
    if n < 10 {
        seq![digit_char(n)]
    } else {
        decimal_digits(n / 10) + seq![digit_char(n % 10)]
    }
}

/// The text of one decimal digit.
pub fn digit_text(d: usize) -> (t: &'static str)
    requires
        d < 10,
    ensures
        t@ == seq![digit_char(d as nat)],
{
    proof {
        reveal_strlit("0");
        reveal_strlit("1");
        reveal_strlit("2");
        reveal_strlit("3");
        reveal_strlit("4");
        reveal_strlit("5");
        reveal_strlit("6");
        reveal_strlit("7");
        reveal_strlit("8");
        reveal_strlit("9");
    }
    let t: &'static str = if d == 0 {
        "0"
    } else if d == 1 {
        "1"
    } else if d == 2 {
        "2"
    } else if d == 3 {
        "3"
    } else if d == 4 {
        "4"
    } else if d == 5 {
        "5"
    } else if d == 6 {
        "6"
    } else if d == 7 {
        "7"
    } else if d == 8 {
        "8"
    } else {
        "9"
    };
    assert(t@ =~= seq![digit_char(d as nat)]);
    t
}

/// Writes a number in decimal digits.
pub fn decimal(n: usize) -> (text: String)
    ensures
        text@ == decimal_digits(n as nat),
{
    let mut rest: usize = n / 10;
    let mut text: String = String::from_str(digit_text(n % 10));
    while rest > 0
        invariant
            decimal_digits(n as nat) == (if rest == 0 {
                text@
            } else {
                decimal_digits(rest as nat) + text@
            }),
        decreases rest,
    {
        let ghost before: Seq<char> = text@;
        let digit: String = String::from_str(digit_text(rest % 10));
        text = digit.concat(text.as_str());
        proof {
            if rest >= 10 {
                assert((decimal_digits((rest / 10) as nat) + seq![digit_char((rest % 10) as nat)])
                    + before =~= decimal_digits((rest / 10) as nat) + (seq![
                    digit_char((rest % 10) as nat),
                ] + before));
            }
        }
        rest = rest / 10;
    }
    text
}

/// What the error says to a reader.
pub open spec fn message_of(e: InnerError) -> Seq<char> {
    match e {
        InnerError::UnequalLen { actual, expected } => "bit-slice with length "@ + decimal_digits(
            actual as nat,
        ) + " cannot be viewed as bit-array with length "@ + decimal_digits(expected as nat),
        InnerError::Misaligned =>
            "a bit-slice must begin at the front edge of a storage element in order to be viewed as a bit-array"@,
    }
}

/// What the error says to a developer.
pub open spec fn debug_message_of(e: InnerError) -> Seq<char> {
    match e {
        InnerError::UnequalLen { actual, expected } => "TryFromBitSliceError::"@ + "UnequalLen("@
            + decimal_digits(actual as nat) + " != "@ + decimal_digits(expected as nat) + ")"@,
        InnerError::Misaligned => "TryFromBitSliceError::"@ + "Misaligned"@,
    }
}

impl TryFromBitSliceError {
    /// The error as a sentence for a reader.
    pub fn to_string(&self) -> (text: String)
        ensures
            text@ == message_of(self.reason()),
    {
        match self.0 {
            InnerError::UnequalLen { actual, expected } => {
                let mut text: String = String::from_str("bit-slice with length ");
                text.append(decimal(actual).as_str());
                text.append(" cannot be viewed as bit-array with length ");
                text.append(decimal(expected).as_str());
                text
            },
            InnerError::Misaligned => String::from_str(
                "a bit-slice must begin at the front edge of a storage element in order to be viewed as a bit-array",
            ),
        }
    }

    /// The error as a short note for a developer.
    pub fn to_debug_string(&self) -> (text: String)
        ensures
            text@ == debug_message_of(self.reason()),
    {
        let mut text: String = String::from_str("TryFromBitSliceError::");
        match self.0 {
            InnerError::UnequalLen { actual, expected } => {
                text.append("UnequalLen(");
                text.append(decimal(actual).as_str());
                text.append(" != ");
                text.append(decimal(expected).as_str());
                text.append(")");
            },
            InnerError::Misaligned => {
                text.append("Misaligned");
            },
        }
        text
    }
}

/// Copies `count` elements of `mem`, from the element number `from` on.
pub fn copy_elements<T: BitStore>(mem: &[T], from: usize, count: usize) -> (v: Vec<T>)
    requires
        from + count <= mem@.len(),
    ensures
        v@ == mem@.subrange(from as int, from + count),
{
    let mut v: Vec<T> = Vec::new();
    let mut i: usize = 0;
    let total: usize = mem.len();
    while i < count
        invariant
            from + count <= mem@.len(),
            total == mem@.len(),
            i <= count,
            v@ == mem@.subrange(from as int, from + i),
        decreases count - i,
    {
        proof {
            mem@[from + i].lemma_raw_in_range();
        }
        let e: T = T::from_raw(mem[from + i].load());
        proof {
            e.lemma_raw_injective(&mem@[from + i]);
        }
        v.push(e);
        proof {
            assert(v@ =~= mem@.subrange(from as int, from + i + 1));
        }
        i = i + 1;
    }
    v
}

impl<T: BitStore, O: BitOrder, const N: usize> Clone for BitArray<T, O, N> {
    /// Copies the array, the bits past its end included.
    fn clone(&self) -> (r: Self)
        ensures
            r.elements() == self.elements(),
    {
        let mem: &[T] = self.as_raw_slice();
        let data: Vec<T> = copy_elements(mem, 0, mem.len());
        proof {
            assert(data@ =~= self.elements());
        }
        BitArray::from_unchecked(data)
    }
}

impl<T: BitStore, O: BitOrder, const N: usize> BitArray<T, O, N> {
    /// Copies the bits of a bit-slice into a new bit-array. The slice must
    /// begin with the first bit of an element and hold `N` bits.
    pub fn try_from(src: &BitSlice<'_, T, O>) -> (r: Result<Self, TryFromBitSliceError>)
        ensures
            match r {
                Ok(a) => {
                    &&& conversion_error(
                        src.spec_bitspan().spec_start_index()@,
                        src.spec_bitspan().spec_length(),
                        N,
                    ) is None
                    &&& a.wf()
                    &&& a@ == src@
                    &&& a.elements() == src.elements().subrange(
                        src.spec_bitspan().spec_address() as int / elem_bytes::<T>() as int,
                        src.spec_bitspan().spec_address() as int / elem_bytes::<T>() as int
                            + a.elements().len(),
                    )
                },
                Err(e) => conversion_error(
                    src.spec_bitspan().spec_start_index()@,
                    src.spec_bitspan().spec_length(),
                    N,
                ) == Some(e.reason()),
            },
    {
        match TryFromBitSliceError::new::<T, O, N>(src) {
            Ok(_) => {},
            Err(e) => {
                return Err(e);
            },
        }
        let span = src.as_bitspan();
        let mem: &[T] = src.as_raw_slice();
        let first: usize = span.address() / bytes_of::<T>();
        let count: usize = elts::<T>(N);
        proof {
            lemma_width_positive::<T>();
            crate::mem::lemma_address_element::<T>(span.address() as int);
            let w = T::bits() as int;
            assert((first + count) * w == first * w + count * w) by (nonlinear_arith);
            if first + count > mem@.len() {
                assert((first + count) * w >= (mem@.len() + 1) * w) by (nonlinear_arith)
                    requires
                        first + count >= mem@.len() + 1,
                        w > 0,
                ;
                assert((mem@.len() + 1) * w == mem@.len() * w + w) by (nonlinear_arith);
            }
            assert(count * w <= mem@.len() * w) by (nonlinear_arith)
                requires
                    count <= mem@.len(),
                    w > 0,
            ;
        }
        let data: Vec<T> = copy_elements(mem, first, count);
        let a: Self = BitArray::new(data);
        proof {
            let w = T::bits() as int;
            a.lemma_wf();
            assert forall|k: int| 0 <= k < N implies a@[k] == src@[k] by {
                crate::mem::lemma_buffer_position::<T, O>(a.elements(), k);
                let j = k / w;
                let i = k % w;
                lemma_buffer_bit::<T, O>(a.elements(), j, i);
                lemma_buffer_bit::<T, O>(src.elements(), first + j, i);
                assert((first + j) * w == first * w + j * w) by (nonlinear_arith);
            }
            assert(a@ =~= src@);
        }
        Ok(a)
    }

    /// Whether the array and the bit-slice hold the same bits.
    pub fn eq<T2: BitStore, O2: BitOrder>(&self, other: &BitSlice<'_, T2, O2>) -> (b: bool)
        requires
            self.wf(),
        ensures
            b == (self@ == other@),
    {
        self.as_bitslice().eq(other)
    }

    /// Ranks the array against a bit-slice, as `rank_of` says.
    pub fn compare<T2: BitStore, O2: BitOrder>(&self, other: &BitSlice<'_, T2, O2>) -> (r: Rank)
        requires
            self.wf(),
        ensures
            r == rank_of(self@, other@),
    {
        self.as_bitslice().compare(other)
    }

    /// Orders two arrays by their bits, the first bit deciding first.
    pub fn cmp(&self, other: &Self) -> (r: Ordering)
        requires
            self.wf(),
            other.wf(),
        ensures
            rank_of(self@, other@) == rank_from(r),
    {
        rank_to_ordering(self.as_bitslice().compare(&other.as_bitslice()))
    }

    /// Orders the array and a bit-slice by their bits; there is always an
    /// order.
    pub fn partial_cmp<T2: BitStore, O2: BitOrder>(&self, other: &BitSlice<'_, T2, O2>) -> (r:
        Option<Ordering>)
        requires
            self.wf(),
        ensures
            r matches Some(o) && rank_of(self@, other@) == rank_from(o),
    {
        Some(rank_to_ordering(self.as_bitslice().compare(other)))
    }

    /// Wraps a buffer as a bit-array; the same as `new`.
    pub fn from(data: Vec<T>) -> (r: Self)
        requires
            holds_bits::<T>(data@.len(), N as nat),
        ensures
            r.elements() == data@,
            r.wf(),
    {
        BitArray::new(data)
    }

    /// A bit-array with all bits clear; the same as `zero`.
    pub fn default() -> (r: Option<Self>)
        ensures
            match r {
                Some(a) => a.wf() && a@ == Seq::new(N as nat, |k: int| false),
                None => !holds_bits::<T>(crate::mem::elts_spec(N as nat, T::bits()), N as nat),
            },
    {
        BitArray::zero()
    }
}

/// The rank that an ordering stands for.
pub open spec fn rank_from(o: Ordering) -> Rank {
    match o {
        Ordering::Less => Rank::Before,
        Ordering::Equal => Rank::Same,
        Ordering::Greater => Rank::After,
    }
}

/// The ordering that a rank stands for.
pub fn rank_to_ordering(rank: Rank) -> (o: Ordering)
    ensures
        rank_from(o) == rank,
{
    match rank {
        Rank::Before => Ordering::Less,
        Rank::Same => Ordering::Equal,
        Rank::After => Ordering::Greater,
    }
}

} // verus!
