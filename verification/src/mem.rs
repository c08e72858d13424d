//! Buffers of elements as sequences of bits, and the single-bit and
//! whole-element accesses that every bulk operation is made of.

use vstd::prelude::*;
use vstd::arithmetic::div_mod::*;
use crate::index::lemma_width_positive;
use crate::order::{BitOrder, lemma_order_injective};
use crate::ptr::{bytes_of, elem_bytes};
use crate::store::{BitStore, bit_of, get_bit, lemma_with_bit, max_raw, set_bit, with_bit};

verus! {

/// How many elements of `width` bits it takes to hold `bits` bits.
pub open spec fn elts_spec(bits: nat, width: nat) -> nat {
    ((bits + width - 1) / (width as int)) as nat
}

/// How many elements of type `T` it takes to hold `bits` bits.
pub fn elts<T: BitStore>(bits: usize) -> (n: usize)
    ensures
        n == elts_spec(bits as nat, T::bits()),
        n * T::bits() >= bits,
        n * T::bits() < bits + T::bits(),
{
    proof {
        lemma_width_positive::<T>();
    }
    let w: usize = T::width() as usize;
    let whole: usize = bits / w;
    let rest: usize = bits % w;
    proof {
        let wi = w as int;
        lemma_fundamental_div_mod(bits as int, wi);
        assert(wi * whole == whole * wi) by (nonlinear_arith);
        assert(whole * 8 <= whole * wi) by (nonlinear_arith)
            requires
                wi >= 8,
                whole >= 0,
        ;
        if rest == 0 {
            lemma_fundamental_div_mod_converse(bits + wi - 1, wi, whole as int, wi - 1);
        } else {
            assert(bits + wi - 1 == (whole + 1) * wi + (rest - 1)) by (nonlinear_arith)
                requires
                    bits == wi * whole + rest,
            ;
            lemma_fundamental_div_mod_converse(bits + wi - 1, wi, whole + 1, rest - 1);
        }
        assert((whole + 1) * wi == whole * wi + wi) by (nonlinear_arith);
    }
    if rest == 0 {
        whole
    } else {
        whole + 1
    }
}

/// The bit with semantic index `idx` of the element `e` under the order `O`.
pub open spec fn elem_bit<T: BitStore, O: BitOrder>(e: T, idx: nat) -> bool {
    bit_of(e.raw(), O::at_spec(idx, T::bits()))
}

/// All bits of a buffer: those of its first element by semantic index, then
/// those of its second element, and so on. The bit with index `i` of the
/// element at the byte address `a`, counted from the start of the buffer,
/// stands at `8 * a + i`.
pub open spec fn buffer_bits<T: BitStore, O: BitOrder>(mem: Seq<T>) -> Seq<bool> {
    Seq::new(
        mem.len() * T::bits(),
        |k: int| elem_bit::<T, O>(mem[k / (T::bits() as int)], (k % (T::bits() as int)) as nat),
    )
}

/// Where the bit `idx` of the element number `e` stands in `buffer_bits`.
pub proof fn lemma_buffer_bit<T: BitStore, O: BitOrder>(mem: Seq<T>, e: int, idx: int)
    requires
        0 <= e < mem.len(),
        0 <= idx < T::bits(),
    ensures
        0 <= e * T::bits() + idx < buffer_bits::<T, O>(mem).len(),
        buffer_bits::<T, O>(mem)[e * T::bits() + idx] == elem_bit::<T, O>(mem[e], idx as nat),
        (e * T::bits() + idx) / (T::bits() as int) == e,
        (e * T::bits() + idx) % (T::bits() as int) == idx,
{
    lemma_width_positive::<T>();
    let w = T::bits() as int;
    lemma_fundamental_div_mod_converse(e * w + idx, w, e, idx);
    assert(e * w + idx < mem.len() * w) by (nonlinear_arith)
        requires
            0 <= e < mem.len(),
            0 <= idx < w,
    ;
    assert(0 <= e * w) by (nonlinear_arith)
        requires
            0 <= e,
            0 < w,
    ;
}

/// The element number and the index of the bit that stands at `k`.
pub proof fn lemma_buffer_position<T: BitStore, O: BitOrder>(mem: Seq<T>, k: int)
    requires
        0 <= k < buffer_bits::<T, O>(mem).len(),
    ensures
        0 <= k / (T::bits() as int) < mem.len(),
        0 <= k % (T::bits() as int) < T::bits(),
        k == (k / (T::bits() as int)) * T::bits() + k % (T::bits() as int),
{
    lemma_width_positive::<T>();
    let w = T::bits() as int;
    lemma_fundamental_div_mod(k, w);
    lemma_mod_bound(k, w);
    lemma_div_pos_is_pos(k, w);
    assert(w * (k / w) == (k / w) * w) by (nonlinear_arith);
    if k / w >= mem.len() {
        assert((k / w) * w >= mem.len() * w) by (nonlinear_arith)
            requires
                k / w >= mem.len(),
                w > 0,
        ;
    }
}

/// An aligned address, counted in bytes from the start of the buffer, as an
/// element number.
pub proof fn lemma_address_element<T: BitStore>(address: int)
    requires
        0 <= address,
        address % (elem_bytes::<T>() as int) == 0,
    ensures
        8 * address == (address / (elem_bytes::<T>() as int)) * T::bits(),
        0 <= address / (elem_bytes::<T>() as int),
        address == (address / (elem_bytes::<T>() as int)) * elem_bytes::<T>(),
{
    lemma_width_positive::<T>();
    let b = elem_bytes::<T>() as int;
    let w = T::bits() as int;
    lemma_fundamental_div_mod(address, b);
    lemma_div_pos_is_pos(address, b);
    assert(8 * (b * (address / b)) == (address / b) * w) by (nonlinear_arith)
        requires
            w == 8 * b,
    ;
    assert(b * (address / b) == (address / b) * b) by (nonlinear_arith);
}

/// Reads the bit `idx` of the element at `address`.
pub fn load_bit<T: BitStore, O: BitOrder>(mem: &[T], address: usize, idx: u8) -> (b: bool)
    requires
        address as nat % elem_bytes::<T>() == 0,
        8 * address + idx < buffer_bits::<T, O>(mem@).len(),
        idx < T::bits(),
    ensures
        b == buffer_bits::<T, O>(mem@)[8 * address + idx],
{
    let e: usize = address / bytes_of::<T>();
    proof {
        lemma_width_positive::<T>();
        lemma_address_element::<T>(address as int);
        lemma_buffer_position::<T, O>(mem@, 8 * address + idx);
        lemma_fundamental_div_mod_converse(
            8 * address + idx,
            T::bits() as int,
            e as int,
            idx as int,
        );
        lemma_buffer_bit::<T, O>(mem@, e as int, idx as int);
    }
    let pos: u8 = O::at(idx, T::width());
    get_bit(&mem[e], pos)
}

/// Writes the bit `idx` of the element at `address`; no other bit changes.
pub fn store_bit<T: BitStore, O: BitOrder>(mem: &mut [T], address: usize, idx: u8, value: bool)
    requires
        address as nat % elem_bytes::<T>() == 0,
        8 * address + idx < buffer_bits::<T, O>(old(mem)@).len(),
        idx < T::bits(),
    ensures
        final(mem)@.len() == old(mem)@.len(),
        buffer_bits::<T, O>(final(mem)@) == buffer_bits::<T, O>(old(mem)@).update(
            8 * address + idx,
            value,
        ),
{
    let e: usize = address / bytes_of::<T>();
    let ghost w = T::bits() as int;
    let ghost k = 8 * address + idx;
    proof {
        lemma_width_positive::<T>();
        lemma_address_element::<T>(address as int);
        lemma_buffer_position::<T, O>(mem@, k);
        lemma_fundamental_div_mod_converse(k, w, e as int, idx as int);
    }
    let pos: u8 = O::at(idx, T::width());
    set_bit(&mut mem[e], pos, value);
    proof {
        let before = old(mem)@;
        let after = mem@;
        O::lemma_bijection(T::bits());
        assert forall|j: int| 0 <= j < buffer_bits::<T, O>(before).len() implies buffer_bits::<
            T,
            O,
        >(after)[j] == buffer_bits::<T, O>(before).update(k, value)[j] by {
            lemma_buffer_position::<T, O>(before, j);
            let ej = j / w;
            let ij = j % w;
            if ej == e {
                lemma_with_bit(
                    before[ej].raw(),
                    pos as nat,
                    value,
                    O::at_spec(ij as nat, T::bits()),
                );
                if O::at_spec(ij as nat, T::bits()) == pos {
                    lemma_order_injective::<O>(T::bits(), ij as nat, idx as nat);
                }
            }
        }
        assert(buffer_bits::<T, O>(after) =~= buffer_bits::<T, O>(before).update(k, value));
    }
}

/// Reads the bit that stands at `k` in the bits of the buffer.
pub fn load_bit_number<T: BitStore, O: BitOrder>(mem: &[T], k: usize) -> (b: bool)
    requires
        k < buffer_bits::<T, O>(mem@).len(),
    ensures
        b == buffer_bits::<T, O>(mem@)[k as int],
{
    proof {
        lemma_width_positive::<T>();
        lemma_buffer_position::<T, O>(mem@, k as int);
    }
    let w: usize = T::width() as usize;
    let e: usize = k / w;
    let idx: u8 = (k % w) as u8;
    let pos: u8 = O::at(idx, T::width());
    get_bit(&mem[e], pos)
}

/// Reads one element's worth of bits, from the bit that stands at `from` on,
/// and lays them out as a raw value in the order `O`. Where the bits are
/// those of one element, they are read at once.
pub fn gather<T: BitStore, O: BitOrder>(mem: &[T], from: usize) -> (word: u64)
    requires
        from + T::bits() <= buffer_bits::<T, O>(mem@).len() <= usize::MAX,
    ensures
        word <= max_raw(T::bits()),
        forall|j: int|
            0 <= j < T::bits() ==> bit_of(word, O::at_spec(j as nat, T::bits()))
                == #[trigger] buffer_bits::<T, O>(mem@)[from + j],
{
    proof {
        lemma_width_positive::<T>();
        O::lemma_bijection(T::bits());
    }
    let width: u8 = T::width();
    let w: usize = width as usize;
    let ghost bits = buffer_bits::<T, O>(mem@);
    if from % w == 0 {
        let e: usize = from / w;
        proof {
            lemma_buffer_position::<T, O>(mem@, from as int);
            mem@[e as int].lemma_raw_in_range();
            assert forall|j: int| 0 <= j < T::bits() implies bit_of(
                mem@[e as int].raw(),
                O::at_spec(j as nat, T::bits()),
            ) == #[trigger] bits[from + j] by {
                lemma_buffer_bit::<T, O>(mem@, e as int, j);
            }
        }
        return mem[e].load();
    }
    let mut acc: u64 = 0;
    let mut done: u8 = 0;
    proof {
        assert forall|i: int| 0 <= i < T::bits() implies !bit_of(
            0u64,
            #[trigger] O::at_spec(i as nat, T::bits()),
        ) by {
            crate::store::lemma_max_raw_bits(T::bits(), O::at_spec(i as nat, T::bits()));
        }
    }
    while done < width
        invariant
            crate::store::supported_width(T::bits()),
            width == T::bits(),
            bits == buffer_bits::<T, O>(mem@),
            from + T::bits() <= bits.len() <= usize::MAX,
            done <= width,
            acc <= max_raw(T::bits()),
            forall|i: int|
                0 <= i < T::bits() ==> bit_of(acc, #[trigger] O::at_spec(i as nat, T::bits())) == (i
                    < done && bits[from + i]),
        decreases width - done,
    {
        if load_bit_number::<T, O>(mem, from + done as usize) {
            let pos: u8 = O::at(done, width);
            let ghost prev: u64 = acc;
            acc = acc | (1u64 << (pos as u64));
            proof {
                O::lemma_bijection(T::bits());
                crate::store::lemma_with_bit_in_range(prev, pos as nat, true, T::bits());
                assert(acc == with_bit(prev, pos as nat, true));
                assert forall|i: int| 0 <= i < T::bits() implies bit_of(
                    acc,
                    #[trigger] O::at_spec(i as nat, T::bits()),
                ) == (i < done + 1 && bits[from + i]) by {
                    lemma_with_bit(prev, pos as nat, true, O::at_spec(i as nat, T::bits()));
                    if O::at_spec(i as nat, T::bits()) == pos {
                        lemma_order_injective::<O>(T::bits(), i as nat, done as nat);
                    }
                }
            }
        }
        done = done + 1;
    }
    acc
}

/// The buffer bits after the element at `address` took the raw value `word`.
pub open spec fn with_word<T: BitStore, O: BitOrder>(
    bits: Seq<bool>,
    address: int,
    word: u64,
) -> Seq<bool> {
    Seq::new(
        bits.len(),
        |k: int|
            if 8 * address <= k < 8 * address + T::bits() {
                bit_of(word, O::at_spec((k - 8 * address) as nat, T::bits()))
            } else {
                bits[k]
            },
    )
}

/// Reads the raw value of the element at `address`.
pub fn load_word<T: BitStore, O: BitOrder>(mem: &[T], address: usize) -> (word: u64)
    requires
        address as nat % elem_bytes::<T>() == 0,
        8 * address + T::bits() <= buffer_bits::<T, O>(mem@).len(),
    ensures
        word <= max_raw(T::bits()),
        forall|i: int|
            0 <= i < T::bits() ==> bit_of(word, O::at_spec(i as nat, T::bits())) == #[trigger] buffer_bits::<
                T,
                O,
            >(mem@)[8 * address + i],
{
    let e: usize = address / bytes_of::<T>();
    proof {
        lemma_width_positive::<T>();
        lemma_address_element::<T>(address as int);
        lemma_buffer_position::<T, O>(mem@, 8 * address);
        lemma_fundamental_div_mod_converse(8 * address, T::bits() as int, e as int, 0);
        mem@[e as int].lemma_raw_in_range();
        assert forall|i: int| 0 <= i < T::bits() implies bit_of(
            mem@[e as int].raw(),
            O::at_spec(i as nat, T::bits()),
        ) == #[trigger] buffer_bits::<T, O>(mem@)[8 * address + i] by {
            lemma_buffer_bit::<T, O>(mem@, e as int, i);
        }
    }
    mem[e].load()
}

/// Writes the raw value of the element at `address`; the bits of the other
/// elements do not change.
pub fn store_word<T: BitStore, O: BitOrder>(mem: &mut [T], address: usize, word: u64)
    requires
        address as nat % elem_bytes::<T>() == 0,
        8 * address + T::bits() <= buffer_bits::<T, O>(old(mem)@).len(),
        word <= max_raw(T::bits()),
    ensures
        final(mem)@.len() == old(mem)@.len(),
        buffer_bits::<T, O>(final(mem)@) == with_word::<T, O>(
            buffer_bits::<T, O>(old(mem)@),
            address as int,
            word,
        ),
{
    let e: usize = address / bytes_of::<T>();
    let ghost w = T::bits() as int;
    proof {
        lemma_width_positive::<T>();
        lemma_address_element::<T>(address as int);
        lemma_buffer_position::<T, O>(mem@, 8 * address);
        lemma_fundamental_div_mod_converse(8 * address, w, e as int, 0);
    }
    T::store(&mut mem[e], word);
    proof {
        let before = old(mem)@;
        let after = mem@;
        assert forall|j: int| 0 <= j < buffer_bits::<T, O>(before).len() implies buffer_bits::<
            T,
            O,
        >(after)[j] == with_word::<T, O>(buffer_bits::<T, O>(before), address as int, word)[j] by {
            lemma_buffer_position::<T, O>(before, j);
            let ej = j / w;
            let ij = j % w;
            if ej == e {
                assert(j == 8 * address + ij);
            } else {
                if 8 * address <= j < 8 * address + w {
                    lemma_fundamental_div_mod_converse(j, w, e as int, j - 8 * address);
                }
            }
        }
        assert(buffer_bits::<T, O>(after) =~= with_word::<T, O>(
            buffer_bits::<T, O>(before),
            address as int,
            word,
        ));
    }
}

} // verus!
