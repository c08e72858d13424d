use bitvec::index::BitError;
use bitvec::order::{Lsb0, Msb0};
use bitvec::ptr::{BitPtr, BitSpan};
use bitvec::slice::{BitSlice, Rank};
use bitvec::slice_mut::BitSliceMut;

fn span8(address: usize, head: u8, len: usize) -> BitSpan<u8> {
    BitSpan::new(BitPtr::<u8>::new(address, head).unwrap(), len).unwrap()
}

fn span16(address: usize, head: u8, len: usize) -> BitSpan<u16> {
    BitSpan::new(BitPtr::<u16>::new(address, head).unwrap(), len).unwrap()
}

fn bools(text: &str) -> Vec<bool> {
    text.chars().filter(|c| *c == '0' || *c == '1').map(|c| c == '1').collect()
}

#[test]
fn fill_of_bits_two_to_six_gives_0b0011_1100() {
    let mut data = vec![0b0000_0000u8];
    {
        let mut bits = BitSliceMut::<u8, Lsb0>::new(&mut data, span8(0, 2, 4)).unwrap();
        bits.fill(true);
    }
    assert_eq!(data, vec![0b0011_1100u8]);
}

#[test]
fn fill_of_bits_two_to_six_msb_first_gives_0b0011_1100() {
    let mut data = vec![0u8];
    {
        let mut bits = BitSliceMut::<u8, Msb0>::new(&mut data, span8(0, 2, 4)).unwrap();
        bits.fill(true);
    }
    assert_eq!(data, vec![0b0011_1100u8]);
}

#[test]
fn fill_leaves_neighbours_alone() {
    let mut data = vec![0xffu8, 0xff, 0xff, 0xff];
    {
        let mut bits = BitSliceMut::<u8, Lsb0>::new(&mut data, span8(0, 3, 24)).unwrap();
        bits.fill(false);
    }
    assert_eq!(data, vec![0b0000_0111u8, 0, 0, 0b1111_1000]);
    let mut wide = vec![0u16, 0, 0];
    {
        let mut bits = BitSliceMut::<u16, Msb0>::new(&mut wide, span16(0, 12, 24)).unwrap();
        bits.fill(true);
    }
    assert_eq!(wide, vec![0x000fu16, 0xffff, 0xf000]);
}

#[test]
fn fill_then_count_ones() {
    for head in 0u8..8 {
        for len in 0usize..40 {
            let mut data = vec![0b1010_0101u8; 6];
            let mut bits = BitSliceMut::<u8, Lsb0>::new(&mut data, span8(0, head, len)).unwrap();
            bits.fill(true);
            assert_eq!(bits.as_bitslice().count_ones(), len);
            assert_eq!(bits.as_bitslice().count_zeros(), 0);
            bits.fill(false);
            assert_eq!(bits.as_bitslice().count_ones(), 0);
            assert_eq!(bits.as_bitslice().count_zeros(), len);
        }
    }
}

#[test]
fn count_ones_counts_only_the_span() {
    let data = vec![0xffu8, 0x0f, 0xff];
    let bits = BitSlice::<u8, Lsb0>::new(&data, span8(0, 6, 12)).unwrap();
    assert_eq!(bits.len(), 12);
    assert_eq!(bits.count_ones(), 2 + 4 + 2);
    let all = BitSlice::<u8, Msb0>::from_slice(&data).unwrap();
    assert_eq!(all.len(), 24);
    assert_eq!(all.count_ones(), 20);
}

#[test]
fn get_reads_by_order() {
    let data = vec![0b0000_0001u8, 0b1000_0000];
    let lsb = BitSlice::<u8, Lsb0>::from_slice(&data).unwrap();
    assert_eq!(lsb.get(0), Some(true));
    assert_eq!(lsb.get(1), Some(false));
    assert_eq!(lsb.get(15), Some(true));
    assert_eq!(lsb.get(16), None);
    let msb = BitSlice::<u8, Msb0>::from_slice(&data).unwrap();
    assert_eq!(msb.get(0), Some(false));
    assert_eq!(msb.get(7), Some(true));
    assert_eq!(msb.get(8), Some(true));
    assert_eq!(msb.get(9), Some(false));
    assert_eq!(msb.to_bools(), bools("00000001 10000000"));
    assert_eq!(lsb.to_bools(), bools("10000000 00000001"));
}

#[test]
fn set_writes_one_bit() {
    let mut data = vec![0u16, 0];
    {
        let mut bits = BitSliceMut::<u16, Lsb0>::new(&mut data, span16(0, 4, 20)).unwrap();
        assert_eq!(bits.set(0, true), Ok(()));
        assert_eq!(bits.set(19, true), Ok(()));
        assert_eq!(bits.set(20, true), Err(BitError::OutOfRange));
        assert_eq!(bits.get(0), Some(true));
        assert_eq!(bits.get(1), Some(false));
        assert_eq!(bits.get(19), Some(true));
        assert_eq!(bits.get(20), None);
    }
    assert_eq!(data, vec![1u16 << 4, 1 << 7]);
}

#[test]
fn views_refuse_spans_outside_the_buffer() {
    let data = vec![0u8; 2];
    assert!(BitSlice::<u8, Lsb0>::new(&data, span8(0, 0, 16)).is_ok());
    assert!(matches!(
        BitSlice::<u8, Lsb0>::new(&data, span8(0, 0, 17)),
        Err(BitError::OutOfRange)
    ));
    assert!(matches!(
        BitSlice::<u8, Lsb0>::new(&data, span8(1, 7, 2)),
        Err(BitError::OutOfRange)
    ));
    assert!(BitSlice::<u8, Lsb0>::new(&data, span8(2, 0, 0)).is_ok());
    let mut owned = vec![0u8; 2];
    assert!(matches!(
        BitSliceMut::<u8, Lsb0>::new(&mut owned, span8(2, 0, 1)),
        Err(BitError::OutOfRange)
    ));
}

#[test]
fn subslice_narrows_the_view() {
    let data = vec![0b1100_1010u8, 0b0000_1111];
    let all = BitSlice::<u8, Lsb0>::from_slice(&data).unwrap();
    let part = all.subslice(3, 9).unwrap();
    assert_eq!(part.to_bools(), all.to_bools()[3..12].to_vec());
    assert_eq!(part.as_bitspan().start_index().into_inner(), 3);
    assert_eq!(part.as_bitspan().address(), 0);
    let later = all.subslice(9, 7).unwrap();
    assert_eq!(later.as_bitspan().address(), 1);
    assert_eq!(later.as_bitspan().start_index().into_inner(), 1);
    assert!(matches!(all.subslice(9, 8), Err(BitError::OutOfRange)));
    assert!(matches!(all.subslice(17, 0), Err(BitError::OutOfRange)));
    assert_eq!(all.subslice(16, 0).unwrap().len(), 0);
}

#[test]
fn bitwise_assignments() {
    let left = 0b1100_1010_0101_0011u16;
    let right = vec![0b0110_0110u8, 0b1111_0000];
    let rhs = BitSlice::<u8, Lsb0>::from_slice(&right).unwrap();
    let right_as_u16 = 0b1111_0000_0110_0110u16;

    let mut data = vec![left];
    BitSliceMut::<u16, Lsb0>::from_slice_mut(&mut data).unwrap().and_assign(&rhs).unwrap();
    assert_eq!(data, vec![left & right_as_u16]);

    let mut data = vec![left];
    BitSliceMut::<u16, Lsb0>::from_slice_mut(&mut data).unwrap().or_assign(&rhs).unwrap();
    assert_eq!(data, vec![left | right_as_u16]);

    let mut data = vec![left];
    BitSliceMut::<u16, Lsb0>::from_slice_mut(&mut data).unwrap().xor_assign(&rhs).unwrap();
    assert_eq!(data, vec![left ^ right_as_u16]);

    let mut data = vec![left];
    BitSliceMut::<u16, Lsb0>::from_slice_mut(&mut data)
        .unwrap()
        .copy_from_bitslice(&rhs)
        .unwrap();
    assert_eq!(data, vec![right_as_u16]);

    let mut data = vec![left];
    BitSliceMut::<u16, Lsb0>::from_slice_mut(&mut data).unwrap().invert();
    assert_eq!(data, vec![!left]);
}

#[test]
fn bitwise_assignment_across_orders_and_offsets() {
    let source = vec![0b1011_0010u8, 0b0100_1101, 0b1110_0001];
    let rhs = BitSlice::<u8, Msb0>::new(&source, span8(0, 5, 17)).unwrap();
    let wanted = rhs.to_bools();
    let mut data = vec![0xffffu16, 0xffff, 0xffff];
    {
        let mut bits = BitSliceMut::<u16, Lsb0>::new(&mut data, span16(0, 9, 17)).unwrap();
        bits.and_assign(&rhs).unwrap();
        assert_eq!(bits.as_bitslice().to_bools(), wanted);
    }
    let all = BitSlice::<u16, Lsb0>::from_slice(&data).unwrap().to_bools();
    for (k, bit) in all.iter().enumerate() {
        if k < 9 || k >= 26 {
            assert!(*bit);
        } else {
            assert_eq!(*bit, wanted[k - 9]);
        }
    }
}

#[test]
fn xor_twice_is_the_identity() {
    let source = vec![0x5au8, 0xc3, 0x7e, 0x01];
    for head in 0u8..8 {
        for len in 0usize..24 {
            let rhs = BitSlice::<u8, Msb0>::new(&source, span8(0, 3, len)).unwrap();
            let start = vec![0x1234u16, 0xfedc, 0x0f0f];
            let mut data = start.clone();
            {
                let mut bits =
                    BitSliceMut::<u16, Lsb0>::new(&mut data, span16(0, head, len)).unwrap();
                bits.xor_assign(&rhs).unwrap();
                bits.xor_assign(&rhs).unwrap();
            }
            assert_eq!(data, start);
        }
    }
}

#[test]
fn unequal_lengths_are_refused_before_any_write() {
    let source = vec![0xffu8, 0xff];
    let rhs = BitSlice::<u8, Lsb0>::new(&source, span8(0, 0, 9)).unwrap();
    let mut data = vec![0u8, 0];
    {
        let mut bits = BitSliceMut::<u8, Lsb0>::new(&mut data, span8(0, 1, 10)).unwrap();
        let mismatch = Err(BitError::LengthMismatch { left: 10, right: 9 });
        assert_eq!(bits.or_assign(&rhs), mismatch);
        assert_eq!(bits.and_assign(&rhs), mismatch);
        assert_eq!(bits.xor_assign(&rhs), mismatch);
        assert_eq!(bits.copy_from_bitslice(&rhs), mismatch);
    }
    assert_eq!(data, vec![0u8, 0]);
}

fn copy_through_temporary(bits: &[bool], src: usize, dst: usize, len: usize) -> Vec<bool> {
    let saved: Vec<bool> = bits[src..src + len].to_vec();
    let mut out = bits.to_vec();
    out[dst..dst + len].copy_from_slice(&saved);
    out
}

#[test]
fn overlapping_copy_matches_copy_through_temporary() {
    let mut data = vec![0b1001_1100_0101_0110u16];
    let before = BitSlice::<u16, Lsb0>::from_slice(&data).unwrap().to_bools();
    {
        let mut bits = BitSliceMut::<u16, Lsb0>::from_slice_mut(&mut data).unwrap();
        assert_eq!(bits.copy_within(2, 0, 8), Ok(()));
    }
    let after = BitSlice::<u16, Lsb0>::from_slice(&data).unwrap().to_bools();
    assert_eq!(after, copy_through_temporary(&before, 2, 0, 8));
    assert_eq!(data, vec![0b1001_1100_0001_0101u16]);
}

#[test]
fn copy_within_in_both_directions() {
    let start = vec![0x5au8, 0xc3, 0x7e, 0x01];
    for src in 0usize..20 {
        for dst in 0usize..20 {
            for len in 0usize..8 {
                let mut data = start.clone();
                let before = BitSlice::<u8, Msb0>::from_slice(&data).unwrap().to_bools();
                {
                    let mut bits =
                        BitSliceMut::<u8, Msb0>::new(&mut data, span8(0, 3, 27)).unwrap();
                    assert_eq!(bits.copy_within(src, dst, len), Ok(()));
                }
                let after = BitSlice::<u8, Msb0>::from_slice(&data).unwrap().to_bools();
                assert_eq!(after, copy_through_temporary(&before, 3 + src, 3 + dst, len));
            }
        }
    }
}

#[test]
fn copy_within_refuses_ranges_outside_the_slice() {
    let mut data = vec![0xa5u8, 0x5a];
    {
        let mut bits = BitSliceMut::<u8, Lsb0>::from_slice_mut(&mut data).unwrap();
        assert_eq!(bits.copy_within(9, 0, 8), Err(BitError::OutOfRange));
        assert_eq!(bits.copy_within(0, 9, 8), Err(BitError::OutOfRange));
        assert_eq!(bits.copy_within(17, 0, 0), Err(BitError::OutOfRange));
        assert_eq!(bits.copy_within(usize::MAX, 0, 2), Err(BitError::OutOfRange));
        assert_eq!(bits.copy_within(16, 16, 0), Ok(()));
    }
    assert_eq!(data, vec![0xa5u8, 0x5a]);
}

#[test]
fn rotate_left_moves_the_front_to_the_back() {
    let mut data = vec![0b0000_0111u8];
    BitSliceMut::<u8, Lsb0>::from_slice_mut(&mut data).unwrap().rotate_left(2);
    assert_eq!(data, vec![0b1100_0001u8]);
    let mut data = vec![0b0000_0111u8];
    BitSliceMut::<u8, Lsb0>::from_slice_mut(&mut data).unwrap().rotate_right(2);
    assert_eq!(data, vec![0b0001_1100u8]);
    let mut data = vec![0b0000_0111u8];
    BitSliceMut::<u8, Lsb0>::from_slice_mut(&mut data).unwrap().rotate_left(10);
    assert_eq!(data, vec![0b1100_0001u8]);
}

#[test]
fn rotate_by_n_then_by_the_rest_is_the_identity() {
    let start = vec![0x5au8, 0xc3, 0x7e, 0x01];
    for head in 0u8..8 {
        for len in 0usize..24 {
            for n in 0..=len {
                let mut data = start.clone();
                {
                    let mut bits =
                        BitSliceMut::<u8, Lsb0>::new(&mut data, span8(0, head, len)).unwrap();
                    bits.rotate_left(n);
                    bits.rotate_left(len - n);
                }
                assert_eq!(data, start);
                {
                    let mut bits =
                        BitSliceMut::<u8, Lsb0>::new(&mut data, span8(0, head, len)).unwrap();
                    bits.rotate_left(n);
                    bits.rotate_right(n);
                }
                assert_eq!(data, start);
            }
        }
    }
}

#[test]
fn shifts_fill_with_zeros() {
    let mut data = vec![0b1111_1111u8, 0b1111_1111];
    {
        let mut bits = BitSliceMut::<u8, Lsb0>::new(&mut data, span8(0, 2, 12)).unwrap();
        bits.shift_left(5);
    }
    assert_eq!(data, vec![0b1111_1111u8, 0b1100_0001]);
    let mut data = vec![0b1111_1111u8, 0b1111_1111];
    {
        let mut bits = BitSliceMut::<u8, Lsb0>::new(&mut data, span8(0, 2, 12)).unwrap();
        bits.shift_right(5);
    }
    assert_eq!(data, vec![0b1000_0011u8, 0b1111_1111]);
    let mut data = vec![0b0110_1001u8];
    BitSliceMut::<u8, Lsb0>::from_slice_mut(&mut data).unwrap().shift_left(3);
    assert_eq!(data, vec![0b0000_1101u8]);
    let mut data = vec![0b0110_1001u8];
    BitSliceMut::<u8, Lsb0>::from_slice_mut(&mut data).unwrap().shift_right(3);
    assert_eq!(data, vec![0b0100_1000u8]);
    let mut data = vec![0b0110_1001u8];
    BitSliceMut::<u8, Lsb0>::from_slice_mut(&mut data).unwrap().shift_right(8);
    assert_eq!(data, vec![0u8]);
    let mut data = vec![0b0110_1001u8];
    BitSliceMut::<u8, Lsb0>::from_slice_mut(&mut data).unwrap().shift_left(200);
    assert_eq!(data, vec![0u8]);
}

#[test]
fn fill_range_writes_part_of_a_slice() {
    let mut data = vec![0u8, 0, 0];
    {
        let mut bits = BitSliceMut::<u8, Lsb0>::new(&mut data, span8(0, 1, 22)).unwrap();
        assert_eq!(bits.fill_range(3, 17, true), Ok(()));
        assert_eq!(bits.fill_range(6, 17, true), Err(BitError::OutOfRange));
    }
    assert_eq!(data, vec![0b1111_0000u8, 0xff, 0b0001_1111]);
}

#[test]
fn slices_of_different_layouts_compare_by_their_bits() {
    let bytes = vec![0b0000_0101u8];
    let words = vec![0xa000u16];
    let a = BitSlice::<u8, Lsb0>::new(&bytes, span8(0, 0, 4)).unwrap();
    let b = BitSlice::<u16, Msb0>::new(&words, span16(0, 0, 4)).unwrap();
    assert!(a.eq(&b));
    assert!(b.eq(&a));
    assert_eq!(a.compare(&b), Rank::Same);
    let shorter = BitSlice::<u16, Msb0>::new(&words, span16(0, 0, 3)).unwrap();
    assert!(!a.eq(&shorter));
    assert_eq!(a.compare(&shorter), Rank::After);
    assert_eq!(shorter.compare(&a), Rank::Before);
    let other = BitSlice::<u8, Lsb0>::new(&bytes, span8(0, 1, 4)).unwrap();
    assert_eq!(other.to_bools(), vec![false, true, false, false]);
    assert_eq!(other.compare(&a), Rank::Before);
    assert_eq!(a.compare(&other), Rank::After);
}

#[test]
fn empty_slices_are_equal_wherever_they_start() {
    let bytes = vec![0xffu8, 0x00];
    let words = vec![0x1234u16];
    let a = BitSlice::<u8, Lsb0>::new(&bytes, span8(0, 3, 0)).unwrap();
    let b = BitSlice::<u8, Lsb0>::new(&bytes, span8(1, 7, 0)).unwrap();
    let c = BitSlice::<u16, Msb0>::new(&words, span16(0, 15, 0)).unwrap();
    assert!(a.eq(&b));
    assert!(a.eq(&c));
    assert_eq!(a.compare(&c), Rank::Same);
    assert!(a.is_empty());
    assert_eq!(a.count_ones(), 0);
}

#[test]
fn equality_over_many_layouts() {
    let left = vec![0x5au8, 0xc3, 0x7e, 0x01, 0x99];
    let text = BitSlice::<u8, Lsb0>::from_slice(&left).unwrap().to_bools();
    for head in 0u8..8 {
        for len in 0usize..30 {
            let a = BitSlice::<u8, Lsb0>::new(&left, span8(0, head, len)).unwrap();
            let wanted = &text[head as usize..head as usize + len];
            for shift in [0u8, 3, 15] {
                let mut right = vec![0xffffu16, 0, 0xffff, 0];
                {
                    let mut out =
                        BitSliceMut::<u16, Msb0>::new(&mut right, span16(0, shift, len)).unwrap();
                    for (i, bit) in wanted.iter().enumerate() {
                        out.set(i, *bit).unwrap();
                    }
                }
                let b = BitSlice::<u16, Msb0>::new(&right, span16(0, shift, len)).unwrap();
                assert!(a.eq(&b));
                assert!(b.eq(&a));
                for flip in 0..len {
                    let mut changed = right.clone();
                    {
                        let mut out = BitSliceMut::<u16, Msb0>::new(
                            &mut changed,
                            span16(0, shift, len),
                        )
                        .unwrap();
                        out.set(flip, !wanted[flip]).unwrap();
                    }
                    let c = BitSlice::<u16, Msb0>::new(&changed, span16(0, shift, len)).unwrap();
                    assert!(!a.eq(&c));
                    assert!(!c.eq(&a));
                }
            }
        }
    }
}

#[test]
fn comparison_agrees_with_the_order_of_bool_lists() {
    let left = vec![0b0110_1001u8, 0b1100_0011];
    let right = vec![0b1001_0110_1100_0011u16];
    for a_head in 0u8..4 {
        for a_len in 0usize..10 {
            for b_head in 0u8..4 {
                for b_len in 0usize..10 {
                    let a = BitSlice::<u8, Lsb0>::new(&left, span8(0, a_head, a_len)).unwrap();
                    let b = BitSlice::<u16, Msb0>::new(&right, span16(0, b_head, b_len)).unwrap();
                    let wanted = match a.to_bools().cmp(&b.to_bools()) {
                        std::cmp::Ordering::Less => Rank::Before,
                        std::cmp::Ordering::Equal => Rank::Same,
                        std::cmp::Ordering::Greater => Rank::After,
                    };
                    assert_eq!(a.compare(&b), wanted);
                    assert_eq!(a.eq(&b), a.to_bools() == b.to_bools());
                }
            }
        }
    }
}

#[test]
fn count_ones_agrees_with_a_count_of_bool_values() {
    let data = vec![0u32, 0xffff_ffff, 0x0f0f_1234, 0xffff_ffff, 0, 0x8000_0001];
    for head in [0u8, 1, 17, 31] {
        for len in [0usize, 1, 31, 32, 33, 64, 65, 100, 150] {
            let span = BitSpan::new(BitPtr::<u32>::new(0, head).unwrap(), len).unwrap();
            let bits = BitSlice::<u32, Msb0>::new(&data, span).unwrap();
            let wanted = bits.to_bools().iter().filter(|b| **b).count();
            assert_eq!(bits.count_ones(), wanted);
            assert_eq!(bits.count_zeros(), len - wanted);
        }
    }
}

#[test]
fn copy_within_wide_elements() {
    let start = vec![0x0123_4567u32, 0x89ab_cdef, 0xdead_beef, 0x0bad_f00d];
    for src in [0usize, 1, 5, 31, 32, 33, 40] {
        for dst in [0usize, 1, 5, 31, 32, 33, 40] {
            for len in [0usize, 1, 31, 32, 33, 64, 70] {
                let mut data = start.clone();
                let before = BitSlice::<u32, Lsb0>::from_slice(&data).unwrap().to_bools();
                {
                    let span = BitSpan::new(BitPtr::<u32>::new(0, 9).unwrap(), 115).unwrap();
                    let mut bits = BitSliceMut::<u32, Lsb0>::new(&mut data, span).unwrap();
                    assert_eq!(bits.copy_within(src, dst, len), Ok(()));
                }
                let after = BitSlice::<u32, Lsb0>::from_slice(&data).unwrap().to_bools();
                assert_eq!(after, copy_through_temporary(&before, 9 + src, 9 + dst, len));
            }
        }
    }
}
