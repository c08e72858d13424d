//! The engines behind the bulk operations. One combines each bit of a span
//! with a bit from a source; the other moves bits from one place of a buffer
//! to another. Both make one pass over the domain of the span that they
//! write.
//!
//! Partial elements are handled bit by bit. Each whole element of the body
//! takes one store of a raw value that was put together beforehand.

use vstd::prelude::*;
use crate::domain::{Domain, PartialElement, WholeElements, addressable, lemma_domain_layout};
use crate::index::lemma_width_positive;
use crate::mem::{
    buffer_bits,
    gather,
    load_bit,
    load_bit_number,
    load_word,
    store_bit,
    store_word,
};
use crate::order::BitOrder;
use crate::ptr::{BitSpan, bytes_of, elem_bytes, max_bits};
use crate::store::{
    BitStore,
    bit_of,
    lemma_max_raw_bits,
    max_raw,
    max_raw_value,
    supported_width,
};

verus! {

/// How a bit of the destination is combined with a bit of the source.
#[derive(Clone, Copy, Debug, PartialEq, Eq, Structural)]
pub enum BitOp {
    /// The source bit replaces the destination bit.
    Copy,
    /// Logical and.
    And,
    /// Logical or.
    Or,
    /// Exclusive or.
    Xor,
}

impl BitOp {
    /// The combination of one destination bit with one source bit.
    pub open spec fn apply(self, old: bool, src: bool) -> bool {
        match self {
            BitOp::Copy => src,
            BitOp::And => old && src,
            BitOp::Or => old || src,
            BitOp::Xor => old != src,
        }
    }

    /// The combination of two raw values, bit by bit.
    pub open spec fn apply_word(self, old: u64, src: u64) -> u64 {
        match self {
            BitOp::Copy => src,
            BitOp::And => old & src,
            BitOp::Or => old | src,
            BitOp::Xor => old ^ src,
        }
    }

    /// `apply_word` combines the bits at each position with `apply`.
    pub proof fn lemma_apply_word(self, old: u64, src: u64, pos: nat)
        requires
            pos < 64,
        ensures
            bit_of(self.apply_word(old, src), pos) == self.apply(bit_of(old, pos), bit_of(src, pos)),
    {
        let p: u64 = pos as u64;
        assert(p < 64 ==> ((((old & src) >> p) & 1 == 1) == (((old >> p) & 1 == 1) && ((src >> p) & 1
            == 1)))) by (bit_vector);
        assert(p < 64 ==> ((((old | src) >> p) & 1 == 1) == (((old >> p) & 1 == 1) || ((src >> p) & 1
            == 1)))) by (bit_vector);
        assert(p < 64 ==> ((((old ^ src) >> p) & 1 == 1) == (((old >> p) & 1 == 1) != ((src >> p) & 1
            == 1)))) by (bit_vector);
    }

    /// Combining two raw values of one width gives a raw value of that width.
    pub proof fn lemma_apply_word_in_range(self, old: u64, src: u64, width: nat)
        requires
            supported_width(width),
            old <= max_raw(width),
            src <= max_raw(width),
        ensures
            self.apply_word(old, src) <= max_raw(width),
    {
        assert(old <= 0xffu64 && src <= 0xffu64 ==> (old & src) <= 0xffu64 && (old | src) <= 0xffu64
            && (old ^ src) <= 0xffu64) by (bit_vector);
        assert(old <= 0xffffu64 && src <= 0xffffu64 ==> (old & src) <= 0xffffu64 && (old | src)
            <= 0xffffu64 && (old ^ src) <= 0xffffu64) by (bit_vector);
        assert(old <= 0xffff_ffffu64 && src <= 0xffff_ffffu64 ==> (old & src) <= 0xffff_ffffu64 && (
        old | src) <= 0xffff_ffffu64 && (old ^ src) <= 0xffff_ffffu64) by (bit_vector);
    }

    /// Combines one destination bit with one source bit.
    pub fn bit(self, old: bool, src: bool) -> (r: bool)
        ensures
            r == self.apply(old, src),
    {
        match self {
            BitOp::Copy => src,
            BitOp::And => old && src,
            BitOp::Or => old || src,
            BitOp::Xor => old != src,
        }
    }

    /// Combines two raw values.
    pub fn word(self, old: u64, src: u64) -> (r: u64)
        ensures
            r == self.apply_word(old, src),
    {
        match self {
            BitOp::Copy => src,
            BitOp::And => old & src,
            BitOp::Or => old | src,
            BitOp::Xor => old ^ src,
        }
    }
}

/// Two bit sequences of one length, combined bit by bit.
pub open spec fn combined(op: BitOp, old: Seq<bool>, src: Seq<bool>) -> Seq<bool> {
    Seq::new(old.len(), |i: int| op.apply(old[i], src[i]))
}

/// The buffer bits `buffer` with the bits from `at` on replaced by `bits`.
pub open spec fn spliced(buffer: Seq<bool>, at: int, bits: Seq<bool>) -> Seq<bool> {
    Seq::new(
        buffer.len(),
        |k: int|
            if at <= k < at + bits.len() {
                bits[k - at]
            } else {
                buffer[k]
            },
    )
}

/// Something that bits can be read from, one at a time or a whole element's
/// worth at once.
pub trait BitSource {
    /// The bits of the source.
    spec fn source_bits(&self) -> Seq<bool>;

    /// Reads the bit number `i`.
    fn source_bit(&self, i: usize) -> (b: bool)
        requires
            i < self.source_bits().len(),
        ensures
            b == self.source_bits()[i as int],
    ;

    /// Reads `width` bits from the bit number `from` on and lays them out as
    /// a raw value in the order `L`.
    fn source_word<L: BitOrder>(&self, from: usize, width: u8) -> (word: u64)
        requires
            supported_width(width as nat),
            from + width <= self.source_bits().len(),
        ensures
            word <= max_raw(width as nat),
            forall|j: int|
                0 <= j < width ==> bit_of(word, L::at_spec(j as nat, width as nat))
                    == #[trigger] self.source_bits()[from + j],
    ;
}

/// A source of `len` bits that all have the same value.
pub struct Repeat {
    pub value: bool,
    pub len: usize,
}

impl BitSource for Repeat {
    open spec fn source_bits(&self) -> Seq<bool> {
        Seq::new(self.len as nat, |i: int| self.value)
    }

    fn source_bit(&self, i: usize) -> (b: bool) {
        self.value
    }

    fn source_word<L: BitOrder>(&self, from: usize, width: u8) -> (word: u64) {
        let word: u64 = if self.value {
            max_raw_value(width)
        } else {
            0
        };
        proof {
            L::lemma_bijection(width as nat);
            assert forall|j: int| 0 <= j < width implies bit_of(
                word,
                L::at_spec(j as nat, width as nat),
            ) == #[trigger] self.source_bits()[from + j] by {
                lemma_max_raw_bits(width as nat, L::at_spec(j as nat, width as nat));
            }
        }
        word
    }
}

/// The buffer bits while an operation is under way: from `start` up to
/// `done` the bits are combined with the source, the others are as before.
pub open spec fn progress(
    before: Seq<bool>,
    start: int,
    done: int,
    op: BitOp,
    src: Seq<bool>,
) -> Seq<bool> {
    Seq::new(
        before.len(),
        |k: int|
            if start <= k < done {
                op.apply(before[k], src[k - start])
            } else {
                before[k]
            },
    )
}

/// Whether a span lies in a buffer of `total` bits that starts at address 0.
pub open spec fn span_within<T: BitStore>(span: BitSpan<T>, total: nat) -> bool {
    &&& span.wf()
    &&& total <= max_bits()
    &&& span.end_bit() <= total
}

/// A span that lies in a buffer has an address for each of its elements.
pub proof fn lemma_within_addressable<T: BitStore>(span: BitSpan<T>, total: nat)
    requires
        span_within(span, total),
    ensures
        addressable(span),
{
    lemma_width_positive::<T>();
    if span.spec_length() > 0 {
        crate::domain::lemma_elements(span);
        let w = T::bits() as int;
        let b = elem_bytes::<T>() as int;
        let n = span.spec_elements() as int;
        let end = span.spec_start_index()@ + span.spec_length();
        vstd::arithmetic::div_mod::lemma_fundamental_div_mod(end, w);
        vstd::arithmetic::div_mod::lemma_mod_bound(end, w);
        assert((n - 1) * w <= end) by (nonlinear_arith)
            requires
                n - 1 <= end / w,
                end == w * (end / w) + end % w,
                0 <= end % w,
                w > 0,
        ;
        assert(8 * ((n - 1) * b) == (n - 1) * w) by (nonlinear_arith)
            requires
                w == 8 * b,
        ;
    }
}

/// Combines the bits `first ..= last` of one element with the source.
fn combine_partial<T: BitStore, O: BitOrder, S: BitSource>(
    mem: &mut [T],
    part: &PartialElement<T>,
    op: BitOp,
    src: &S,
    start: usize,
    Ghost(before): Ghost<Seq<bool>>,
)
    requires
        part.wf(),
        start <= part.first_bit(),
        part.end_bit() <= before.len(),
        part.end_bit() - start <= src.source_bits().len(),
        before.len() <= max_bits(),
        buffer_bits::<T, O>(old(mem)@) == progress(
            before,
            start as int,
            part.first_bit() as int,
            op,
            src.source_bits(),
        ),
    ensures
        final(mem)@.len() == old(mem)@.len(),
        buffer_bits::<T, O>(final(mem)@) == progress(
            before,
            start as int,
            part.end_bit() as int,
            op,
            src.source_bits(),
        ),
{
    proof {
        lemma_width_positive::<T>();
    }
    let address: usize = part.address;
    let last: u8 = part.last.into_inner();
    let mut idx: u8 = part.first.into_inner();
    let offset: usize = 8 * address;
    while idx <= last
        invariant
            part.wf(),
            address == part.address,
            last == part.last@,
            offset == 8 * address,
            part.first@ <= idx <= last + 1,
            last < T::bits(),
            supported_width(T::bits()),
            start <= part.first_bit(),
            part.end_bit() <= before.len(),
            part.end_bit() - start <= src.source_bits().len(),
            before.len() <= max_bits(),
            mem@.len() == old(mem)@.len(),
            buffer_bits::<T, O>(mem@) == progress(
                before,
                start as int,
                8 * address + idx,
                op,
                src.source_bits(),
            ),
        decreases last + 1 - idx,
    {
        let ghost k: int = 8 * address + idx;
        let from: usize = offset + idx as usize;
        let s: bool = src.source_bit(from - start);
        let b: bool = load_bit::<T, O>(mem, address, idx);
        store_bit::<T, O>(mem, address, idx, op.bit(b, s));
        proof {
            assert(buffer_bits::<T, O>(mem@) =~= progress(
                before,
                start as int,
                k + 1,
                op,
                src.source_bits(),
            ));
        }
        idx = idx + 1;
    }
}

/// Combines every bit of a run of whole elements with the source, one
/// element at a time.
fn combine_body<T: BitStore, O: BitOrder, S: BitSource>(
    mem: &mut [T],
    body: &WholeElements,
    op: BitOp,
    src: &S,
    start: usize,
    Ghost(before): Ghost<Seq<bool>>,
)
    requires
        body.address as nat % elem_bytes::<T>() == 0,
        start <= body.first_bit(),
        body.end_bit(T::bits()) <= before.len(),
        body.end_bit(T::bits()) - start <= src.source_bits().len(),
        before.len() <= max_bits(),
        buffer_bits::<T, O>(old(mem)@).len() == before.len(),
        buffer_bits::<T, O>(old(mem)@) == progress(
            before,
            start as int,
            body.first_bit() as int,
            op,
            src.source_bits(),
        ),
    ensures
        final(mem)@.len() == old(mem)@.len(),
        buffer_bits::<T, O>(final(mem)@) == progress(
            before,
            start as int,
            body.end_bit(T::bits()) as int,
            op,
            src.source_bits(),
        ),
{
    proof {
        lemma_width_positive::<T>();
    }
    let width: u8 = T::width();
    let w: usize = width as usize;
    let bytes: usize = bytes_of::<T>();
    let mut n: usize = 0;
    let mut address: usize = body.address;
    while n < body.count
        invariant
            supported_width(T::bits()),
            width == T::bits(),
            w == T::bits(),
            bytes == elem_bytes::<T>(),
            8 * bytes == w,
            n <= body.count,
            address as nat % elem_bytes::<T>() == 0,
            8 * address == body.first_bit() + n * w,
            start <= body.first_bit(),
            body.end_bit(T::bits()) <= before.len(),
            body.end_bit(T::bits()) - start <= src.source_bits().len(),
            before.len() <= max_bits(),
            mem@.len() == old(mem)@.len(),
            buffer_bits::<T, O>(mem@).len() == before.len(),
            buffer_bits::<T, O>(mem@) == progress(
                before,
                start as int,
                8 * address,
                op,
                src.source_bits(),
            ),
        decreases body.count - n,
    {
        proof {
            assert((n + 1) * w == n * w + w) by (nonlinear_arith);
            assert((n + 1) * w <= body.count * w) by (nonlinear_arith)
                requires
                    n + 1 <= body.count,
                    w >= 0,
            ;
        }
        let ghost now = buffer_bits::<T, O>(mem@);
        let done: usize = 8 * address;
        let old_word: u64 = load_word::<T, O>(mem, address);
        let src_word: u64 = src.source_word::<O>(done - start, width);
        let new_word: u64 = op.word(old_word, src_word);
        proof {
            op.lemma_apply_word_in_range(old_word, src_word, T::bits());
        }
        store_word::<T, O>(mem, address, new_word);
        proof {
            O::lemma_bijection(T::bits());
            let target = progress(before, start as int, done + w, op, src.source_bits());
            assert forall|k: int| 0 <= k < before.len() implies buffer_bits::<T, O>(mem@)[k]
                == target[k] by {
                if done <= k < done + w {
                    let j = k - done;
                    let pos = O::at_spec(j as nat, T::bits());
                    op.lemma_apply_word(old_word, src_word, pos);
                    assert(bit_of(old_word, pos) == now[done + j]);
                    assert(bit_of(src_word, pos) == src.source_bits()[(done - start) + j]);
                }
            }
            assert(buffer_bits::<T, O>(mem@) =~= target);
            vstd::arithmetic::div_mod::lemma_mod_multiples_vanish(
                1,
                address as int,
                bytes as int,
            );
        }
        address = address + bytes;
        n = n + 1;
    }
}

/// Combines every bit of `span` with the bit of `src` that has the same
/// number, and leaves the rest of the buffer as it is.
pub fn combine_span<T: BitStore, O: BitOrder, S: BitSource>(
    mem: &mut [T],
    span: BitSpan<T>,
    op: BitOp,
    src: &S,
)
    requires
        span_within(span, buffer_bits::<T, O>(old(mem)@).len()),
        src.source_bits().len() == span.spec_length(),
    ensures
        final(mem)@.len() == old(mem)@.len(),
        buffer_bits::<T, O>(final(mem)@) == spliced(
            buffer_bits::<T, O>(old(mem)@),
            span.first_bit() as int,
            combined(
                op,
                buffer_bits::<T, O>(old(mem)@).subrange(
                    span.first_bit() as int,
                    span.end_bit() as int,
                ),
                src.source_bits(),
            ),
        ),
{
    let ghost before = buffer_bits::<T, O>(mem@);
    let ghost target = spliced(
        before,
        span.first_bit() as int,
        combined(
            op,
            before.subrange(span.first_bit() as int, span.end_bit() as int),
            src.source_bits(),
        ),
    );
    if span.is_empty() {
        assert(before =~= target);
        return ;
    }
    proof {
        lemma_width_positive::<T>();
        lemma_within_addressable(span, before.len());
        lemma_domain_layout(span);
    }
    let start: usize = 8 * span.address() + span.start_index().into_inner() as usize;
    assert(before =~= progress(before, start as int, start as int, op, src.source_bits()));
    match span.domain().unwrap() {
        Domain::Enclave(part) => {
            combine_partial::<T, O, S>(mem, &part, op, src, start, Ghost(before));
        },
        Domain::Region { head, body, tail } => {
            match head {
                Some(part) => {
                    combine_partial::<T, O, S>(mem, &part, op, src, start, Ghost(before));
                },
                None => {},
            }
            combine_body::<T, O, S>(mem, &body, op, src, start, Ghost(before));
            match tail {
                Some(part) => {
                    combine_partial::<T, O, S>(mem, &part, op, src, start, Ghost(before));
                },
                None => {},
            }
        },
    }
    assert(buffer_bits::<T, O>(mem@) =~= target);
}

/// The buffer bits while bits are being moved inside the buffer: from `lo`
/// up to `hi` each bit is the bit that stood `shift` places further on, the
/// others are as before.
pub open spec fn staged(before: Seq<bool>, lo: int, hi: int, shift: int) -> Seq<bool> {
    Seq::new(
        before.len(),
        |k: int|
            if lo <= k < hi {
                before[k + shift]
            } else {
                before[k]
            },
    )
}

/// Fills the bits `first ..= last` of one element, lowest index first, each
/// with the bit that stands `shift` places further on.
fn move_partial_up<T: BitStore, O: BitOrder>(
    mem: &mut [T],
    part: &PartialElement<T>,
    shift: usize,
    Ghost(before): Ghost<Seq<bool>>,
    Ghost(start): Ghost<int>,
)
    requires
        part.wf(),
        0 <= start <= part.first_bit(),
        part.end_bit() + shift <= before.len() <= max_bits(),
        buffer_bits::<T, O>(old(mem)@) == staged(
            before,
            start,
            part.first_bit() as int,
            shift as int,
        ),
    ensures
        final(mem)@.len() == old(mem)@.len(),
        buffer_bits::<T, O>(final(mem)@) == staged(
            before,
            start,
            part.end_bit() as int,
            shift as int,
        ),
{
    proof {
        lemma_width_positive::<T>();
    }
    let address: usize = part.address;
    let last: u8 = part.last.into_inner();
    let mut idx: u8 = part.first.into_inner();
    while idx <= last
        invariant
            supported_width(T::bits()),
            part.wf(),
            address == part.address,
            last == part.last@,
            last < T::bits(),
            part.first@ <= idx <= last + 1,
            0 <= start <= part.first_bit(),
            part.end_bit() + shift <= before.len() <= max_bits(),
            mem@.len() == old(mem)@.len(),
            buffer_bits::<T, O>(mem@) == staged(before, start, 8 * address + idx, shift as int),
        decreases last + 1 - idx,
    {
        let k: usize = 8 * address + idx as usize;
        let b: bool = load_bit_number::<T, O>(mem, k + shift);
        store_bit::<T, O>(mem, address, idx, b);
        proof {
            assert(buffer_bits::<T, O>(mem@) =~= staged(before, start, k + 1, shift as int));
        }
        idx = idx + 1;
    }
}

/// Fills the bits `first ..= last` of one element, highest index first, each
/// with the bit that stands `back` places before it.
fn move_partial_down<T: BitStore, O: BitOrder>(
    mem: &mut [T],
    part: &PartialElement<T>,
    back: usize,
    Ghost(before): Ghost<Seq<bool>>,
    Ghost(end): Ghost<int>,
)
    requires
        part.wf(),
        back <= part.first_bit(),
        part.end_bit() <= end <= before.len() <= max_bits(),
        buffer_bits::<T, O>(old(mem)@) == staged(before, part.end_bit() as int, end, -(back as int)),
    ensures
        final(mem)@.len() == old(mem)@.len(),
        buffer_bits::<T, O>(final(mem)@) == staged(
            before,
            part.first_bit() as int,
            end,
            -(back as int),
        ),
{
    proof {
        lemma_width_positive::<T>();
    }
    let address: usize = part.address;
    let first: u8 = part.first.into_inner();
    let mut above: u8 = part.last.into_inner() + 1;
    while above > first
        invariant
            supported_width(T::bits()),
            part.wf(),
            address == part.address,
            first == part.first@,
            first <= above <= part.last@ + 1,
            part.last@ < T::bits(),
            back <= part.first_bit(),
            part.end_bit() <= end <= before.len() <= max_bits(),
            mem@.len() == old(mem)@.len(),
            buffer_bits::<T, O>(mem@) == staged(before, 8 * address + above, end, -(back as int)),
        decreases above - first,
    {
        let idx: u8 = above - 1;
        let k: usize = 8 * address + idx as usize;
        let b: bool = load_bit_number::<T, O>(mem, k - back);
        store_bit::<T, O>(mem, address, idx, b);
        proof {
            assert(buffer_bits::<T, O>(mem@) =~= staged(before, k as int, end, -(back as int)));
        }
        above = idx;
    }
}

/// Fills a run of whole elements, lowest address first, each with the bits
/// that stand `shift` places further on.
fn move_body_up<T: BitStore, O: BitOrder>(
    mem: &mut [T],
    body: &WholeElements,
    shift: usize,
    Ghost(before): Ghost<Seq<bool>>,
    Ghost(start): Ghost<int>,
)
    requires
        body.address as nat % elem_bytes::<T>() == 0,
        0 <= start <= body.first_bit(),
        body.end_bit(T::bits()) + shift <= before.len() <= max_bits(),
        buffer_bits::<T, O>(old(mem)@) == staged(
            before,
            start,
            body.first_bit() as int,
            shift as int,
        ),
    ensures
        final(mem)@.len() == old(mem)@.len(),
        buffer_bits::<T, O>(final(mem)@) == staged(
            before,
            start,
            body.end_bit(T::bits()) as int,
            shift as int,
        ),
{
    proof {
        lemma_width_positive::<T>();
    }
    let w: usize = T::width() as usize;
    let bytes: usize = bytes_of::<T>();
    let mut n: usize = 0;
    let mut address: usize = body.address;
    while n < body.count
        invariant
            supported_width(T::bits()),
            w == T::bits(),
            bytes == elem_bytes::<T>(),
            8 * bytes == w,
            n <= body.count,
            address as nat % elem_bytes::<T>() == 0,
            8 * address == body.first_bit() + n * w,
            0 <= start <= body.first_bit(),
            body.end_bit(T::bits()) + shift <= before.len() <= max_bits(),
            mem@.len() == old(mem)@.len(),
            buffer_bits::<T, O>(mem@) == staged(before, start, 8 * address, shift as int),
        decreases body.count - n,
    {
        proof {
            assert((n + 1) * w == n * w + w) by (nonlinear_arith);
            assert((n + 1) * w <= body.count * w) by (nonlinear_arith)
                requires
                    n + 1 <= body.count,
                    w >= 0,
            ;
        }
        let ghost now = buffer_bits::<T, O>(mem@);
        let done: usize = 8 * address;
        let word: u64 = gather::<T, O>(mem, done + shift);
        store_word::<T, O>(mem, address, word);
        proof {
            let target = staged(before, start, done + w, shift as int);
            assert forall|k: int| 0 <= k < before.len() implies buffer_bits::<T, O>(mem@)[k]
                == target[k] by {
                if done <= k < done + w {
                    let j = k - done;
                    assert(bit_of(word, O::at_spec(j as nat, T::bits())) == now[(done + shift) + j]);
                }
            }
            assert(buffer_bits::<T, O>(mem@) =~= target);
            vstd::arithmetic::div_mod::lemma_mod_multiples_vanish(
                1,
                address as int,
                bytes as int,
            );
        }
        address = address + bytes;
        n = n + 1;
    }
}

/// Fills a run of whole elements, highest address first, each with the bits
/// that stand `back` places before its own.
fn move_body_down<T: BitStore, O: BitOrder>(
    mem: &mut [T],
    body: &WholeElements,
    back: usize,
    Ghost(before): Ghost<Seq<bool>>,
    Ghost(end): Ghost<int>,
)
    requires
        body.address as nat % elem_bytes::<T>() == 0,
        back <= body.first_bit(),
        body.end_bit(T::bits()) <= end <= before.len() <= max_bits(),
        buffer_bits::<T, O>(old(mem)@) == staged(
            before,
            body.end_bit(T::bits()) as int,
            end,
            -(back as int),
        ),
    ensures
        final(mem)@.len() == old(mem)@.len(),
        buffer_bits::<T, O>(final(mem)@) == staged(
            before,
            body.first_bit() as int,
            end,
            -(back as int),
        ),
{
    proof {
        lemma_width_positive::<T>();
        assert(body.count * T::bits() >= 0) by (nonlinear_arith)
            requires
                body.count >= 0,
                T::bits() >= 0,
        ;
    }
    let w: usize = T::width() as usize;
    let bytes: usize = bytes_of::<T>();
    let mut n: usize = body.count;
    proof {
        assert(n * bytes * 8 == n * w) by (nonlinear_arith)
            requires
                8 * bytes == w,
        ;
    }
    let mut above: usize = body.address + n * bytes;
    while n > 0
        invariant
            supported_width(T::bits()),
            w == T::bits(),
            bytes == elem_bytes::<T>(),
            8 * bytes == w,
            n <= body.count,
            body.address as nat % elem_bytes::<T>() == 0,
            above == body.address + n * bytes,
            8 * above == body.first_bit() + n * w,
            back <= body.first_bit(),
            body.end_bit(T::bits()) <= end <= before.len() <= max_bits(),
            mem@.len() == old(mem)@.len(),
            buffer_bits::<T, O>(mem@) == staged(before, 8 * above, end, -(back as int)),
        decreases n,
    {
        proof {
            assert((n - 1) * w == n * w - w) by (nonlinear_arith);
            assert((n - 1) * bytes == n * bytes - bytes) by (nonlinear_arith);
            assert(n * w <= body.count * w) by (nonlinear_arith)
                requires
                    n <= body.count,
                    w >= 0,
            ;
            assert(0 <= (n - 1) * bytes) by (nonlinear_arith)
                requires
                    n >= 1,
                    bytes >= 0,
            ;
            vstd::arithmetic::div_mod::lemma_mod_multiples_vanish(
                (n - 1) as int,
                body.address as int,
                bytes as int,
            );
            assert(bytes * (n - 1) == (n - 1) * bytes) by (nonlinear_arith);
        }
        let address: usize = above - bytes;
        let ghost now = buffer_bits::<T, O>(mem@);
        let done: usize = 8 * address;
        let word: u64 = gather::<T, O>(mem, done - back);
        store_word::<T, O>(mem, address, word);
        proof {
            let target = staged(before, done as int, end, -(back as int));
            assert forall|k: int| 0 <= k < before.len() implies buffer_bits::<T, O>(mem@)[k]
                == target[k] by {
                if done <= k < done + w {
                    let j = k - done;
                    assert(bit_of(word, O::at_spec(j as nat, T::bits())) == now[(done - back) + j]);
                }
            }
            assert(buffer_bits::<T, O>(mem@) =~= target);
        }
        above = address;
        n = n - 1;
    }
}

/// Copies the bits that start at `src_first` to the span `dst`, which may
/// overlap them. Where the source lies further on, the span is written from
/// its first bit up; else it is written from its last bit down: either way no
/// bit of the source is written before it has been read.
pub fn move_span<T: BitStore, O: BitOrder>(mem: &mut [T], dst: BitSpan<T>, src_first: usize)
    requires
        span_within(dst, buffer_bits::<T, O>(old(mem)@).len()),
        src_first + dst.spec_length() <= buffer_bits::<T, O>(old(mem)@).len(),
    ensures
        final(mem)@.len() == old(mem)@.len(),
        buffer_bits::<T, O>(final(mem)@) == spliced(
            buffer_bits::<T, O>(old(mem)@),
            dst.first_bit() as int,
            buffer_bits::<T, O>(old(mem)@).subrange(
                src_first as int,
                src_first + dst.spec_length(),
            ),
        ),
{
    let ghost before = buffer_bits::<T, O>(mem@);
    let ghost target = spliced(
        before,
        dst.first_bit() as int,
        before.subrange(src_first as int, src_first + dst.spec_length()),
    );
    if dst.is_empty() {
        assert(before =~= target);
        return ;
    }
    proof {
        lemma_width_positive::<T>();
        lemma_within_addressable(dst, before.len());
        lemma_domain_layout(dst);
    }
    let first: usize = 8 * dst.address() + dst.start_index().into_inner() as usize;
    let ghost end: int = dst.end_bit() as int;
    if src_first >= first {
        let shift: usize = src_first - first;
        assert(before =~= staged(before, first as int, first as int, shift as int));
        match dst.domain().unwrap() {
            Domain::Enclave(part) => {
                move_partial_up::<T, O>(mem, &part, shift, Ghost(before), Ghost(first as int));
            },
            Domain::Region { head, body, tail } => {
                match head {
                    Some(part) => {
                        move_partial_up::<T, O>(
                            mem,
                            &part,
                            shift,
                            Ghost(before),
                            Ghost(first as int),
                        );
                    },
                    None => {},
                }
                move_body_up::<T, O>(mem, &body, shift, Ghost(before), Ghost(first as int));
                match tail {
                    Some(part) => {
                        move_partial_up::<T, O>(
                            mem,
                            &part,
                            shift,
                            Ghost(before),
                            Ghost(first as int),
                        );
                    },
                    None => {},
                }
            },
        }
        assert(buffer_bits::<T, O>(mem@) =~= target);
    } else {
        let back: usize = first - src_first;
        assert(before =~= staged(before, end, end, -(back as int)));
        match dst.domain().unwrap() {
            Domain::Enclave(part) => {
                move_partial_down::<T, O>(mem, &part, back, Ghost(before), Ghost(end));
            },
            Domain::Region { head, body, tail } => {
                match tail {
                    Some(part) => {
                        move_partial_down::<T, O>(mem, &part, back, Ghost(before), Ghost(end));
                    },
                    None => {},
                }
                move_body_down::<T, O>(mem, &body, back, Ghost(before), Ghost(end));
                match head {
                    Some(part) => {
                        move_partial_down::<T, O>(mem, &part, back, Ghost(before), Ghost(end));
                    },
                    None => {},
                }
            },
        }
        assert(buffer_bits::<T, O>(mem@) =~= target);
    }
}

} // verus!
