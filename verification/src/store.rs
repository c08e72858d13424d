//! Storage elements: the integers that bits are packed into.

use vstd::prelude::*;

verus! {

/// Whether several handles may touch one element at the same time.
#[derive(Clone, Copy, Debug, PartialEq, Eq, Structural)]
pub enum Sharing {
    /// Any access needs an exclusive borrow of the whole element.
    Exclusive,
    /// Single-bit accesses through different handles do not race.
    Shared,
}

/// The element widths that the library works with.
pub open spec fn supported_width(w: nat) -> bool {
    w == 8 || w == 16 || w == 32 || w == 64
}

/// The largest raw value of an element that is `w` bits wide.
pub open spec fn max_raw(w: nat) -> u64 {
    if w == 8 {
        0xffu64
    } else if w == 16 {
        0xffffu64
    } else if w == 32 {
        0xffff_ffffu64
    } else {
        0xffff_ffff_ffff_ffffu64
    }
}

/// The bit at physical position `pos` of the raw value `v`.
pub open spec fn bit_of(v: u64, pos: nat) -> bool {
    (v >> (pos as u64)) & 1 == 1
}

/// The raw value `v` with the bit at physical position `pos` set to `value`.
pub open spec fn with_bit(v: u64, pos: nat, value: bool) -> u64 {
    if value {
        v | (1u64 << (pos as u64))
    } else {
        v & !(1u64 << (pos as u64))
    }
}

/// The raw value `v` with the bit at physical position `pos` inverted.
pub open spec fn with_bit_inverted(v: u64, pos: nat) -> u64 {
    v ^ (1u64 << (pos as u64))
}

/// Writing one bit changes that bit and no other.
pub proof fn lemma_with_bit(v: u64, pos: nat, value: bool, q: nat)
    requires
        pos < 64,
        q < 64,
    ensures
        bit_of(with_bit(v, pos, value), q) == (if q == pos {
            value
        } else {
            bit_of(v, q)
        }),
{
    let p: u64 = pos as u64;
    let r: u64 = q as u64;
    assert(p < 64 && r < 64 ==> (((v | (1u64 << p)) >> r) & 1 == 1) == (r == p || (v >> r) & 1 == 1))
        by (bit_vector);
    assert(p < 64 && r < 64 ==> (((v & !(1u64 << p)) >> r) & 1 == 1) == (r != p && (v >> r) & 1
        == 1)) by (bit_vector);
}

/// Inverting one bit changes that bit and no other.
pub proof fn lemma_with_bit_inverted(v: u64, pos: nat, q: nat)
    requires
        pos < 64,
        q < 64,
    ensures
        bit_of(with_bit_inverted(v, pos), q) == (if q == pos {
            !bit_of(v, q)
        } else {
            bit_of(v, q)
        }),
{
    let p: u64 = pos as u64;
    let r: u64 = q as u64;
    assert(p < 64 && r < 64 ==> (((v ^ (1u64 << p)) >> r) & 1 == 1) == ((r == p) != ((v >> r) & 1
        == 1))) by (bit_vector);
}

/// Writing a bit below the width keeps a raw value within the width.
pub proof fn lemma_with_bit_in_range(v: u64, pos: nat, value: bool, w: nat)
    requires
        supported_width(w),
        pos < w,
        v <= max_raw(w),
    ensures
        with_bit(v, pos, value) <= max_raw(w),
        with_bit_inverted(v, pos) <= max_raw(w),
{
    let p: u64 = pos as u64;
    assert(p < 8 && v <= 0xffu64 ==> (v | (1u64 << p)) <= 0xffu64 && (v & !(1u64 << p)) <= 0xffu64
        && (v ^ (1u64 << p)) <= 0xffu64) by (bit_vector);
    assert(p < 16 && v <= 0xffffu64 ==> (v | (1u64 << p)) <= 0xffffu64 && (v & !(1u64 << p))
        <= 0xffffu64 && (v ^ (1u64 << p)) <= 0xffffu64) by (bit_vector);
    assert(p < 32 && v <= 0xffff_ffffu64 ==> (v | (1u64 << p)) <= 0xffff_ffffu64 && (v & !(1u64
        << p)) <= 0xffff_ffffu64 && (v ^ (1u64 << p)) <= 0xffff_ffffu64) by (bit_vector);
}

/// A raw value within the width has no bit at or above the width.
pub proof fn lemma_high_bits_clear(v: u64, w: nat, q: nat)
    requires
        supported_width(w),
        v <= max_raw(w),
        w <= q < 64,
    ensures
        !bit_of(v, q),
{
    let r: u64 = q as u64;
    assert(8 <= r < 64 && v <= 0xffu64 ==> (v >> r) & 1 == 0) by (bit_vector);
    assert(16 <= r < 64 && v <= 0xffffu64 ==> (v >> r) & 1 == 0) by (bit_vector);
    assert(32 <= r < 64 && v <= 0xffff_ffffu64 ==> (v >> r) & 1 == 0) by (bit_vector);
}

/// Two raw values within the width that agree in every bit below the width
/// are the same value.
pub proof fn lemma_bits_determine_raw(a: u64, b: u64, w: nat)
    requires
        supported_width(w),
        a <= max_raw(w),
        b <= max_raw(w),
        forall|q: nat| q < w ==> bit_of(a, q) == bit_of(b, q),
    ensures
        a == b,
{
    let x: u64 = a ^ b;
    if x != 0 {
        vstd::std_specs::bits::axiom_u64_trailing_zeros(x);
        let p: u64 = vstd::std_specs::bits::u64_trailing_zeros(x) as u64;
        assert((x >> p) & 1 == 1);
        assert(p < 64 && ((a ^ b) >> p) & 1 == 1 ==> ((a >> p) & 1 == 1) != ((b >> p) & 1 == 1))
            by (bit_vector);
        if p >= w {
            lemma_high_bits_clear(a, w, p as nat);
            lemma_high_bits_clear(b, w, p as nat);
        } else {
            assert(bit_of(a, p as nat) == bit_of(b, p as nat));
        }
    }
    assert(a ^ b == 0 ==> a == b) by (bit_vector);
}

/// Every bit below the width is set in the largest raw value of that width.
pub proof fn lemma_max_raw_bits(width: nat, pos: nat)
    requires
        supported_width(width),
        pos < width,
    ensures
        bit_of(max_raw(width), pos),
        !bit_of(0u64, pos),
{
    let p: u64 = pos as u64;
    assert(p < 8 ==> (0xffu64 >> p) & 1 == 1) by (bit_vector);
    assert(p < 16 ==> (0xffffu64 >> p) & 1 == 1) by (bit_vector);
    assert(p < 32 ==> (0xffff_ffffu64 >> p) & 1 == 1) by (bit_vector);
    assert(p < 64 ==> (0xffff_ffff_ffff_ffffu64 >> p) & 1 == 1) by (bit_vector);
    assert(p < 64 ==> (0u64 >> p) & 1 == 0) by (bit_vector);
}

/// The largest raw value of an element that is `width` bits wide.
pub fn max_raw_value(width: u8) -> (m: u64)
    requires
        supported_width(width as nat),
    ensures
        m == max_raw(width as nat),
{
    if width == 8 {
        0xffu64
    } else if width == 16 {
        0xffffu64
    } else if width == 32 {
        0xffff_ffffu64
    } else {
        0xffff_ffff_ffff_ffffu64
    }
}

/// One storage element: an unsigned integer of a supported width, read and
/// written as a raw value that is zero-extended to 64 bits.
///
/// Elements that are interior-mutable or atomic declare `Sharing::Shared`;
/// the plain integers below are `Sharing::Exclusive`.
pub trait BitStore: Sized {
    /// The number of bits in one element.
    spec fn bits() -> nat;

    /// The value held by the element.
    spec fn raw(&self) -> u64;

    /// The sharing mode of the element type.
    spec fn sharing_mode() -> Sharing;

    /// The width is supported and the raw value fits in it.
    proof fn lemma_raw_in_range(&self)
        ensures
            supported_width(Self::bits()),
            self.raw() <= max_raw(Self::bits()),
    ;

    /// An element is determined by its raw value.
    proof fn lemma_raw_injective(&self, other: &Self)
        requires
            self.raw() == other.raw(),
        ensures
            self == other,
    ;

    /// The number of bits in one element.
    fn width() -> (w: u8)
        ensures
            w == Self::bits(),
    ;

    /// The sharing mode of the element type.
    fn sharing() -> (s: Sharing)
        ensures
            s == Self::sharing_mode(),
    ;

    /// A new element that holds the raw value `v`.
    fn from_raw(v: u64) -> (e: Self)
        requires
            v <= max_raw(Self::bits()),
        ensures
            e.raw() == v,
    ;

    /// Reads the whole element.
    fn load(&self) -> (v: u64)
        ensures
            v == self.raw(),
    ;

    /// Writes the whole element.
    fn store(&mut self, v: u64)
        requires
            v <= max_raw(Self::bits()),
        ensures
            final(self).raw() == v,
    ;
}

impl BitStore for u8 {
    open spec fn bits() -> nat {
        8
    }

    open spec fn raw(&self) -> u64 {
        *self as u64
    }

    open spec fn sharing_mode() -> Sharing {
        Sharing::Exclusive
    }

    proof fn lemma_raw_in_range(&self) {
    }

    proof fn lemma_raw_injective(&self, other: &Self) {
    }

    fn width() -> (w: u8) {
        8
    }

    fn sharing() -> (s: Sharing) {
        Sharing::Exclusive
    }

    fn from_raw(v: u64) -> (e: Self) {
        v as u8
    }

    fn load(&self) -> (v: u64) {
        *self as u64
    }

    fn store(&mut self, v: u64) {
        *self = v as u8;
    }
}

impl BitStore for u16 {
    open spec fn bits() -> nat {
        16
    }

    open spec fn raw(&self) -> u64 {
        *self as u64
    }

    open spec fn sharing_mode() -> Sharing {
        Sharing::Exclusive
    }

    proof fn lemma_raw_in_range(&self) {
    }

    proof fn lemma_raw_injective(&self, other: &Self) {
    }

    fn width() -> (w: u8) {
        16
    }

    fn sharing() -> (s: Sharing) {
        Sharing::Exclusive
    }

    fn from_raw(v: u64) -> (e: Self) {
        v as u16
    }

    fn load(&self) -> (v: u64) {
        *self as u64
    }

    fn store(&mut self, v: u64) {
        *self = v as u16;
    }
}

impl BitStore for u32 {
    open spec fn bits() -> nat {
        32
    }

    open spec fn raw(&self) -> u64 {
        *self as u64
    }

    open spec fn sharing_mode() -> Sharing {
        Sharing::Exclusive
    }

    proof fn lemma_raw_in_range(&self) {
    }

    proof fn lemma_raw_injective(&self, other: &Self) {
    }

    fn width() -> (w: u8) {
        32
    }

    fn sharing() -> (s: Sharing) {
        Sharing::Exclusive
    }

    fn from_raw(v: u64) -> (e: Self) {
        v as u32
    }

    fn load(&self) -> (v: u64) {
        *self as u64
    }

    fn store(&mut self, v: u64) {
        *self = v as u32;
    }
}

impl BitStore for u64 {
    open spec fn bits() -> nat {
        64
    }

    open spec fn raw(&self) -> u64 {
        *self
    }

    open spec fn sharing_mode() -> Sharing {
        Sharing::Exclusive
    }

    proof fn lemma_raw_in_range(&self) {
    }

    proof fn lemma_raw_injective(&self, other: &Self) {
    }

    fn width() -> (w: u8) {
        64
    }

    fn sharing() -> (s: Sharing) {
        Sharing::Exclusive
    }

    fn from_raw(v: u64) -> (e: Self) {
        v
    }

    fn load(&self) -> (v: u64) {
        *self
    }

    fn store(&mut self, v: u64) {
        *self = v;
    }
}

impl BitStore for usize {
    open spec fn bits() -> nat {
        usize::BITS as nat
    }

    open spec fn raw(&self) -> u64 {
        *self as u64
    }

    open spec fn sharing_mode() -> Sharing {
        Sharing::Exclusive
    }

    proof fn lemma_raw_in_range(&self) {
    }

    proof fn lemma_raw_injective(&self, other: &Self) {
    }

    fn width() -> (w: u8) {
        usize::BITS as u8
    }

    fn sharing() -> (s: Sharing) {
        Sharing::Exclusive
    }

    fn from_raw(v: u64) -> (e: Self) {
        v as usize
    }

    fn load(&self) -> (v: u64) {
        *self as u64
    }

    fn store(&mut self, v: u64) {
        *self = v as usize;
    }
}

/// Tests the bit at physical position `pos`.
pub fn get_bit<T: BitStore>(elem: &T, pos: u8) -> (b: bool)
    requires
        pos < T::bits(),
    ensures
        b == bit_of(elem.raw(), pos as nat),
{
    proof {
        elem.lemma_raw_in_range();
    }
    (elem.load() >> (pos as u64)) & 1 == 1
}

/// Writes `value` to the bit at physical position `pos`.
pub fn set_bit<T: BitStore>(elem: &mut T, pos: u8, value: bool)
    requires
        pos < T::bits(),
    ensures
        final(elem).raw() == with_bit(old(elem).raw(), pos as nat, value),
{
    proof {
        elem.lemma_raw_in_range();
        lemma_with_bit_in_range(elem.raw(), pos as nat, value, T::bits());
    }
    let v: u64 = elem.load();
    let mask: u64 = 1u64 << (pos as u64);
    if value {
        elem.store(v | mask);
    } else {
        elem.store(v & !mask);
    }
}

/// Sets the bit at physical position `pos` to zero.
pub fn clear_bit<T: BitStore>(elem: &mut T, pos: u8)
    requires
        pos < T::bits(),
    ensures
        final(elem).raw() == with_bit(old(elem).raw(), pos as nat, false),
{
    set_bit(elem, pos, false);
}

/// Inverts the bit at physical position `pos`.
pub fn invert_bit<T: BitStore>(elem: &mut T, pos: u8)
    requires
        pos < T::bits(),
    ensures
        final(elem).raw() == with_bit_inverted(old(elem).raw(), pos as nat),
{
    proof {
        elem.lemma_raw_in_range();
        lemma_with_bit_in_range(elem.raw(), pos as nat, true, T::bits());
    }
    let v: u64 = elem.load();
    elem.store(v ^ (1u64 << (pos as u64)));
}

} // verus!
