//! Bit orders: how the semantic index of a bit maps to its physical position.

use vstd::prelude::*;
use crate::store::supported_width;

verus! {

/// A bijection, for each element width, between semantic indices and physical
/// bit positions.
///
/// An implementation proves `lemma_bijection`; the rest of the library relies
/// on it wherever it writes a bit without touching its neighbours.
pub trait BitOrder: Sized {
    /// The physical position of the bit with semantic index `idx` in an
    /// element of `width` bits.
    spec fn at_spec(idx: nat, width: nat) -> nat;

    /// The semantic index of the bit at physical position `pos`.
    spec fn index_of_spec(pos: nat, width: nat) -> nat;

    /// The mapping is a bijection over `0..width`, with `index_of_spec` as
    /// its inverse.
    proof fn lemma_bijection(width: nat)
        requires
            supported_width(width),
        ensures
            forall|i: nat| i < width ==> #[trigger] Self::at_spec(i, width) < width,
            forall|p: nat| p < width ==> #[trigger] Self::index_of_spec(p, width) < width,
            forall|i: nat|
                i < width ==> Self::index_of_spec(#[trigger] Self::at_spec(i, width), width) == i,
            forall|p: nat|
                p < width ==> Self::at_spec(#[trigger] Self::index_of_spec(p, width), width) == p,
    ;

    /// Maps a semantic index to its physical position.
    fn at(idx: u8, width: u8) -> (pos: u8)
        requires
            supported_width(width as nat),
            idx < width,
        ensures
            pos == Self::at_spec(idx as nat, width as nat),
            pos < width,
    ;
}

/// Least-significant bit first: index `i` is position `i`.
#[derive(Clone, Copy, Debug, PartialEq, Eq, Structural)]
pub struct Lsb0;

/// Most-significant bit first: index `i` is position `width - 1 - i`.
#[derive(Clone, Copy, Debug, PartialEq, Eq, Structural)]
pub struct Msb0;

impl BitOrder for Lsb0 {
    open spec fn at_spec(idx: nat, width: nat) -> nat {
        idx
    }

    open spec fn index_of_spec(pos: nat, width: nat) -> nat {
        pos
    }

    proof fn lemma_bijection(width: nat) {
    }

    fn at(idx: u8, width: u8) -> (pos: u8) {
        idx
    }
}

impl BitOrder for Msb0 {
    open spec fn at_spec(idx: nat, width: nat) -> nat {
        (width - 1 - idx) as nat
    }

    open spec fn index_of_spec(pos: nat, width: nat) -> nat {
        (width - 1 - pos) as nat
    }

    proof fn lemma_bijection(width: nat) {
    }

    fn at(idx: u8, width: u8) -> (pos: u8) {
        width - 1 - idx
    }
}

/// No two semantic indices of one element share a physical position.
pub proof fn lemma_order_injective<O: BitOrder>(width: nat, i: nat, j: nat)
    requires
        supported_width(width),
        i < width,
        j < width,
        O::at_spec(i, width) == O::at_spec(j, width),
    ensures
        i == j,
{
    O::lemma_bijection(width);
    assert(O::index_of_spec(O::at_spec(i, width), width) == i);
    assert(O::index_of_spec(O::at_spec(j, width), width) == j);
}

/// Every physical position of an element is the image of one semantic index.
pub proof fn lemma_order_surjective<O: BitOrder>(width: nat, pos: nat) -> (idx: nat)
    requires
        supported_width(width),
        pos < width,
    ensures
        idx < width,
        O::at_spec(idx, width) == pos,
{
    O::lemma_bijection(width);
    O::index_of_spec(pos, width)
}

/// Whether two orders map every index of an element of `width` bits to the
/// same position.
pub open spec fn agree_on<A: BitOrder, B: BitOrder>(width: nat) -> bool {
    forall|i: nat| i < width ==> #[trigger] A::at_spec(i, width) == B::at_spec(i, width)
}

/// Whether two orders are the same mapping for every supported width. Only
/// then may one stand in for the other.
pub open spec fn interchangeable<A: BitOrder, B: BitOrder>() -> bool {
    &&& agree_on::<A, B>(8)
    &&& agree_on::<A, B>(16)
    &&& agree_on::<A, B>(32)
    &&& agree_on::<A, B>(64)
}

/// Tests whether two orders agree on elements of `width` bits, index by
/// index.
pub fn check_agree_on<A: BitOrder, B: BitOrder>(width: u8) -> (b: bool)
    requires
        supported_width(width as nat),
    ensures
        b == agree_on::<A, B>(width as nat),
{
    let mut i: u8 = 0;
    while i < width
        invariant
            supported_width(width as nat),
            i <= width,
            forall|j: nat| j < i ==> #[trigger] A::at_spec(j, width as nat) == B::at_spec(j, width as nat),
        decreases width - i,
    {
        if A::at(i, width) != B::at(i, width) {
            return false;
        }
        i = i + 1;
    }
    true
}

/// Tests whether two orders are interchangeable, once for each supported
/// width.
pub fn check_interchangeable<A: BitOrder, B: BitOrder>() -> (b: bool)
    ensures
        b == interchangeable::<A, B>(),
{
    check_agree_on::<A, B>(8) && check_agree_on::<A, B>(16) && check_agree_on::<A, B>(32)
        && check_agree_on::<A, B>(64)
}

} // verus!
