use bitvec::domain::Domain;
use bitvec::index::{BitError, BitIdx};
use bitvec::order::{check_agree_on, check_interchangeable, BitOrder, Lsb0, Msb0};
use bitvec::ptr::{bytes_of, max_bits_value, BitPtr, BitSpan};
use bitvec::store::{clear_bit, get_bit, invert_bit, set_bit, BitStore, Sharing};

fn physical_positions<O: BitOrder>(width: u8) -> Vec<u8> {
    (0..width).map(|i| O::at(i, width)).collect()
}

fn is_permutation(positions: &[u8], width: u8) -> bool {
    let mut seen = vec![false; width as usize];
    for p in positions {
        if *p >= width || seen[*p as usize] {
            return false;
        }
        seen[*p as usize] = true;
    }
    seen.iter().all(|s| *s)
}

#[test]
fn both_orders_are_bijections_for_every_width() {
    for width in [8u8, 16, 32, 64] {
        assert!(is_permutation(&physical_positions::<Lsb0>(width), width));
        assert!(is_permutation(&physical_positions::<Msb0>(width), width));
    }
}

#[test]
fn lsb0_is_the_identity_and_msb0_counts_down() {
    for width in [8u8, 16, 32, 64] {
        for i in 0..width {
            assert_eq!(Lsb0::at(i, width), i);
            assert_eq!(Msb0::at(i, width), width - 1 - i);
        }
    }
    assert_eq!(Msb0::at(0, 8), 7);
    assert_eq!(Msb0::at(3, 16), 12);
    assert_eq!(Msb0::at(63, 64), 0);
}

#[test]
fn elements_report_their_width_and_sharing() {
    assert_eq!(<u8 as BitStore>::width(), 8);
    assert_eq!(<u16 as BitStore>::width(), 16);
    assert_eq!(<u32 as BitStore>::width(), 32);
    assert_eq!(<u64 as BitStore>::width(), 64);
    assert_eq!(<usize as BitStore>::width() as u32, usize::BITS);
    assert_eq!(<u8 as BitStore>::sharing(), Sharing::Exclusive);
    assert_eq!(<usize as BitStore>::sharing(), Sharing::Exclusive);
    assert_eq!(bytes_of::<u8>(), 1);
    assert_eq!(bytes_of::<u16>(), 2);
    assert_eq!(bytes_of::<u32>(), 4);
    assert_eq!(bytes_of::<u64>(), 8);
}

#[test]
fn elements_load_and_store_raw_values() {
    let mut a = 0u8;
    a.store(0xa5);
    assert_eq!(a, 0xa5);
    assert_eq!(a.load(), 0xa5);
    let mut b = 0u32;
    b.store(0xdead_beef);
    assert_eq!(b.load(), 0xdead_beef);
    assert_eq!(<u16 as BitStore>::from_raw(0xffff), 0xffffu16);
    assert_eq!(<u64 as BitStore>::from_raw(u64::MAX), u64::MAX);
}

#[test]
fn single_bit_accesses() {
    let mut e = 0b0000_0100u8;
    assert!(get_bit(&e, 2));
    assert!(!get_bit(&e, 3));
    set_bit(&mut e, 7, true);
    assert_eq!(e, 0b1000_0100);
    set_bit(&mut e, 2, false);
    assert_eq!(e, 0b1000_0000);
    set_bit(&mut e, 7, true);
    assert_eq!(e, 0b1000_0000);
    clear_bit(&mut e, 7);
    assert_eq!(e, 0);
    invert_bit(&mut e, 0);
    assert_eq!(e, 1);
    invert_bit(&mut e, 0);
    assert_eq!(e, 0);
    let mut wide = 0u64;
    set_bit(&mut wide, 63, true);
    assert_eq!(wide, 1u64 << 63);
    assert!(get_bit(&wide, 63));
}

#[test]
fn bit_index_checks_its_range() {
    assert_eq!(BitIdx::<u8>::new(7).unwrap().into_inner(), 7);
    assert!(matches!(BitIdx::<u8>::new(8), Err(BitError::Range)));
    assert_eq!(BitIdx::<u16>::new(15).unwrap().into_inner(), 15);
    assert!(matches!(BitIdx::<u16>::new(16), Err(BitError::Range)));
    assert_eq!(BitIdx::<u64>::new(63).unwrap().into_inner(), 63);
    assert!(matches!(BitIdx::<u64>::new(64), Err(BitError::Range)));
    assert!(matches!(BitIdx::<u64>::new(255), Err(BitError::Range)));
    assert_eq!(BitIdx::<u32>::min().into_inner(), 0);
    assert_eq!(BitIdx::<u32>::max().into_inner(), 31);
}

#[test]
fn pointer_round_trip() {
    for address in [0usize, 8, 0x1000, usize::MAX - 7] {
        for head in 0u8..64 {
            let p = BitPtr::<u64>::new(address, head).unwrap();
            assert_eq!(p.address(), address);
            assert_eq!(p.start_index().into_inner(), head);
        }
    }
    for address in 0usize..32 {
        for head in 0u8..8 {
            let p = BitPtr::<u8>::new(address, head).unwrap();
            assert_eq!((p.address(), p.start_index().into_inner()), (address, head));
        }
    }
}

#[test]
fn pointer_refuses_misaligned_addresses_and_large_indices() {
    assert!(matches!(BitPtr::<u16>::new(1, 0), Err(BitError::Alignment)));
    assert!(matches!(BitPtr::<u32>::new(6, 0), Err(BitError::Alignment)));
    assert!(matches!(BitPtr::<u64>::new(12, 0), Err(BitError::Alignment)));
    assert!(matches!(BitPtr::<u64>::new(usize::MAX, 0), Err(BitError::Alignment)));
    assert!(matches!(BitPtr::<u8>::new(3, 8), Err(BitError::Range)));
    assert!(matches!(BitPtr::<u16>::new(2, 16), Err(BitError::Range)));
    assert!(matches!(BitPtr::<u32>::new(4, 32), Err(BitError::Range)));
    assert!(matches!(BitPtr::<u16>::new(3, 16), Err(BitError::Alignment)));
    assert!(BitPtr::<u8>::new(usize::MAX, 7).is_ok());
    assert!(BitPtr::<u16>::new(2, 15).is_ok());
}

#[test]
fn span_round_trip_and_boundaries() {
    let limit = max_bits_value();
    assert_eq!(limit, usize::MAX / 8);
    let p = BitPtr::<u8>::new(40, 7).unwrap();
    let s = BitSpan::new(p, 1).unwrap();
    assert_eq!((s.address(), s.start_index().into_inner(), s.length()), (40, 7, 1));
    assert_eq!(s.pointer().address(), 40);
    assert!(!s.is_empty());
    let empty = BitSpan::new(p, 0).unwrap();
    assert!(empty.is_empty());
    assert_eq!(empty.start_index().into_inner(), 7);
    assert!(BitSpan::new(p, limit - 7).is_ok());
    assert!(matches!(BitSpan::new(p, limit - 6), Err(BitError::Overflow)));
    assert!(matches!(BitSpan::new(p, usize::MAX), Err(BitError::Overflow)));
    let q = BitPtr::<u64>::new(usize::MAX - 7, 0).unwrap();
    assert_eq!(BitSpan::new(q, limit).unwrap().length(), limit);
    assert!(matches!(BitSpan::new(q, limit + 1), Err(BitError::Overflow)));
    let r = BitPtr::<u64>::new(0, 63).unwrap();
    assert!(BitSpan::new(r, 1).is_ok());
    assert!(BitSpan::new(r, limit - 63).is_ok());
    assert!(matches!(BitSpan::new(r, limit - 62), Err(BitError::Overflow)));
}

#[test]
fn span_counts_its_elements() {
    let at = |head: u8, len: usize| BitSpan::new(BitPtr::<u8>::new(0, head).unwrap(), len).unwrap();
    assert_eq!(at(0, 0).elements(), 0);
    assert_eq!(at(5, 0).elements(), 0);
    assert_eq!(at(0, 1).elements(), 1);
    assert_eq!(at(0, 8).elements(), 1);
    assert_eq!(at(0, 9).elements(), 2);
    assert_eq!(at(7, 1).elements(), 1);
    assert_eq!(at(7, 2).elements(), 2);
    assert_eq!(at(7, 10).elements(), 3);
}

#[test]
fn pointer_arithmetic_moves_address_and_index_together() {
    let p = BitPtr::<u16>::new(4, 10).unwrap();
    let q = p.add(0, 0, 100).unwrap();
    assert_eq!((q.address(), q.start_index().into_inner()), (4, 10));
    let q = p.add(5, 0, 100).unwrap();
    assert_eq!((q.address(), q.start_index().into_inner()), (4, 15));
    let q = p.add(6, 0, 100).unwrap();
    assert_eq!((q.address(), q.start_index().into_inner()), (6, 0));
    let q = p.add(16 * 3 + 7, 0, 100).unwrap();
    assert_eq!((q.address(), q.start_index().into_inner()), (12, 1));
    let q = p.offset(-10, 0, 100).unwrap();
    assert_eq!((q.address(), q.start_index().into_inner()), (4, 0));
    let q = p.offset(-11, 0, 100).unwrap();
    assert_eq!((q.address(), q.start_index().into_inner()), (2, 15));
    let q = p.offset(-42, 0, 100).unwrap();
    assert_eq!((q.address(), q.start_index().into_inner()), (0, 0));
    let q = p.offset(22, 0, 100).unwrap();
    assert_eq!((q.address(), q.start_index().into_inner()), (8, 0));
}

#[test]
fn pointer_arithmetic_stays_in_the_buffer() {
    let p = BitPtr::<u16>::new(4, 10).unwrap();
    assert!(matches!(p.add(6, 0, 4), Err(BitError::OutOfRange)));
    assert!(p.add(5, 0, 4).is_ok());
    assert!(matches!(p.add(0, 6, 100), Err(BitError::OutOfRange)));
    assert!(matches!(p.offset(-11, 4, 100), Err(BitError::OutOfRange)));
    assert!(p.offset(-10, 4, 100).is_ok());
    assert!(matches!(p.offset(-43, 0, 100), Err(BitError::OutOfRange)));
    assert!(matches!(p.offset(isize::MIN, 0, 100), Err(BitError::OutOfRange)));
    assert!(matches!(p.add(usize::MAX, 0, 1 << 20), Err(BitError::OutOfRange)));
    let far = p.add(usize::MAX, 0, usize::MAX).unwrap();
    assert_eq!(far.address(), 4 + 2 * ((usize::MAX / 16) + 1 - 1) + 2 * ((10 + usize::MAX % 16) / 16));
    assert_eq!(far.start_index().into_inner() as usize, (10 + usize::MAX % 16) % 16);
    assert!(matches!(p.offset(isize::MAX, 0, 100), Err(BitError::OutOfRange)));
    let top = BitPtr::<u8>::new(usize::MAX, 7).unwrap();
    assert!(matches!(top.add(1, 0, usize::MAX), Err(BitError::OutOfRange)));
    assert!(top.add(0, 0, usize::MAX).is_ok());
}

#[test]
fn subspan_keeps_the_head_moving() {
    let s = BitSpan::new(BitPtr::<u32>::new(8, 30).unwrap(), 100).unwrap();
    let t = s.subspan(0, 100).unwrap();
    assert_eq!((t.address(), t.start_index().into_inner(), t.length()), (8, 30, 100));
    let t = s.subspan(2, 10).unwrap();
    assert_eq!((t.address(), t.start_index().into_inner(), t.length()), (12, 0, 10));
    let t = s.subspan(100, 0).unwrap();
    assert_eq!((t.address(), t.start_index().into_inner(), t.length()), (24, 2, 0));
    assert!(matches!(s.subspan(1, 100), Err(BitError::OutOfRange)));
    assert!(matches!(s.subspan(101, 0), Err(BitError::OutOfRange)));
    assert!(matches!(s.subspan(usize::MAX, 2), Err(BitError::OutOfRange)));
}

#[test]
fn spans_alias_when_they_share_an_element() {
    let at = |address: usize, head: u8, len: usize| {
        BitSpan::new(BitPtr::<u16>::new(address, head).unwrap(), len).unwrap()
    };
    assert!(!at(0, 0, 8).aliasing_free(&at(0, 8, 8)));
    assert!(at(0, 0, 16).aliasing_free(&at(2, 0, 16)));
    assert!(!at(0, 0, 17).aliasing_free(&at(2, 0, 16)));
    assert!(!at(0, 15, 2).aliasing_free(&at(2, 1, 3)));
    assert!(at(4, 0, 1).aliasing_free(&at(0, 0, 32)));
    assert!(at(0, 3, 0).aliasing_free(&at(0, 0, 16)));
    assert!(at(0, 0, 16).aliasing_free(&at(0, 5, 0)));
}

fn parts_of(domain: &Domain<u8>) -> Vec<(usize, u8)> {
    let mut bits = Vec::new();
    let mut partial = |bits: &mut Vec<(usize, u8)>, address: usize, first: u8, last: u8| {
        for i in first..=last {
            bits.push((address, i));
        }
    };
    match domain {
        Domain::Enclave(part) => {
            partial(&mut bits, part.address, part.first.into_inner(), part.last.into_inner())
        },
        Domain::Region { head, body, tail } => {
            if let Some(part) = head {
                partial(&mut bits, part.address, part.first.into_inner(), part.last.into_inner());
            }
            for n in 0..body.count {
                partial(&mut bits, body.address + n, 0, 7);
            }
            if let Some(part) = tail {
                partial(&mut bits, part.address, part.first.into_inner(), part.last.into_inner());
            }
        },
    }
    bits
}

#[test]
fn domain_reconstructs_the_span() {
    for address in [0usize, 5] {
        for head in 0u8..8 {
            for len in 0usize..40 {
                let span = BitSpan::new(BitPtr::<u8>::new(address, head).unwrap(), len).unwrap();
                let domain = span.domain().unwrap();
                let wanted: Vec<(usize, u8)> = (0..len)
                    .map(|i| {
                        let k = head as usize + i;
                        (address + k / 8, (k % 8) as u8)
                    })
                    .collect();
                assert_eq!(parts_of(&domain), wanted);
            }
        }
    }
}

#[test]
fn domain_shapes() {
    let of = |head: u8, len: usize| {
        BitSpan::new(BitPtr::<u16>::new(6, head).unwrap(), len).unwrap().domain().unwrap()
    };
    match of(3, 0) {
        Domain::Region { head: None, body, tail: None } => assert_eq!(body.count, 0),
        _ => panic!("an empty span is a region without parts"),
    }
    match of(0, 16) {
        Domain::Region { head: None, body, tail: None } => {
            assert_eq!((body.address, body.count), (6, 1))
        },
        _ => panic!("a whole element is a region with a body of one element"),
    }
    match of(0, 15) {
        Domain::Enclave(part) => {
            assert_eq!(
                (part.address, part.first.into_inner(), part.last.into_inner()),
                (6, 0, 14)
            )
        },
        _ => panic!("a span inside one element is an enclave"),
    }
    match of(1, 15) {
        Domain::Enclave(part) => {
            assert_eq!(
                (part.address, part.first.into_inner(), part.last.into_inner()),
                (6, 1, 15)
            )
        },
        _ => panic!("a span inside one element is an enclave"),
    }
    match of(15, 1) {
        Domain::Enclave(part) => {
            assert_eq!(
                (part.address, part.first.into_inner(), part.last.into_inner()),
                (6, 15, 15)
            )
        },
        _ => panic!("a span inside one element is an enclave"),
    }
    match of(15, 2) {
        Domain::Region { head: Some(head), body, tail: Some(tail) } => {
            assert_eq!(
                (head.address, head.first.into_inner(), head.last.into_inner()),
                (6, 15, 15)
            );
            assert_eq!((body.address, body.count), (8, 0));
            assert_eq!(
                (tail.address, tail.first.into_inner(), tail.last.into_inner()),
                (8, 0, 0)
            );
        },
        _ => panic!("a span over two elements is a region"),
    }
    match of(4, 12 + 32 + 5) {
        Domain::Region { head: Some(head), body, tail: Some(tail) } => {
            assert_eq!(
                (head.address, head.first.into_inner(), head.last.into_inner()),
                (6, 4, 15)
            );
            assert_eq!((body.address, body.count), (8, 2));
            assert_eq!(
                (tail.address, tail.first.into_inner(), tail.last.into_inner()),
                (12, 0, 4)
            );
        },
        _ => panic!("head, body and tail"),
    }
    match of(0, 32 + 5) {
        Domain::Region { head: None, body, tail: Some(tail) } => {
            assert_eq!((body.address, body.count), (6, 2));
            assert_eq!(
                (tail.address, tail.first.into_inner(), tail.last.into_inner()),
                (10, 0, 4)
            );
        },
        _ => panic!("body and tail"),
    }
    match of(4, 12 + 32) {
        Domain::Region { head: Some(head), body, tail: None } => {
            assert_eq!(
                (head.address, head.first.into_inner(), head.last.into_inner()),
                (6, 4, 15)
            );
            assert_eq!((body.address, body.count), (8, 2));
        },
        _ => panic!("head and body"),
    }
}

#[test]
fn domain_needs_an_address_for_every_element() {
    let top = BitPtr::<u8>::new(usize::MAX, 0).unwrap();
    assert!(BitSpan::new(top, 8).unwrap().domain().is_ok());
    assert!(BitSpan::new(top, 0).unwrap().domain().is_ok());
    assert!(matches!(BitSpan::new(top, 9).unwrap().domain(), Err(BitError::Overflow)));
    let wide = BitPtr::<u64>::new(usize::MAX - 7, 60).unwrap();
    assert!(BitSpan::new(wide, 4).unwrap().domain().is_ok());
    assert!(matches!(BitSpan::new(wide, 5).unwrap().domain(), Err(BitError::Overflow)));
}

#[test]
fn packed_spans_round_trip() {
    let limit = max_bits_value();
    for address in [0usize, 64, usize::MAX - 7] {
        for head in 0u8..64 {
            for len in [0usize, 1, 63, 64, 1000, limit - 63] {
                let span = BitSpan::new(BitPtr::<u64>::new(address, head).unwrap(), len).unwrap();
                let (ptr_word, len_word) = span.encode();
                let back = BitSpan::<u64>::decode(ptr_word, len_word).unwrap();
                assert_eq!(
                    (back.address(), back.start_index().into_inner(), back.length()),
                    (address, head, len)
                );
            }
        }
    }
    for address in 0usize..20 {
        for head in 0u8..8 {
            let span = BitSpan::new(BitPtr::<u8>::new(address, head).unwrap(), 11).unwrap();
            let (ptr_word, len_word) = span.encode();
            assert_eq!(ptr_word, address);
            assert_eq!(len_word, 11 * 8 + head as usize);
            let back = BitSpan::<u8>::decode(ptr_word, len_word).unwrap();
            assert_eq!(
                (back.address(), back.start_index().into_inner(), back.length()),
                (address, head, 11)
            );
        }
    }
    let span = BitSpan::new(BitPtr::<u16>::new(6, 13).unwrap(), 5).unwrap();
    assert_eq!(span.encode(), (7, 5 * 8 + 5));
    let span = BitSpan::new(BitPtr::<u32>::new(8, 31).unwrap(), 2).unwrap();
    assert_eq!(span.encode(), (11, 2 * 8 + 7));
}

#[test]
fn unpacking_refuses_only_lengths_that_pass_the_limit() {
    let back = BitSpan::<u16>::decode(7, 45).unwrap();
    assert_eq!((back.address(), back.start_index().into_inner(), back.length()), (6, 13, 5));
    let back = BitSpan::<u8>::decode(usize::MAX, 0).unwrap();
    assert_eq!((back.address(), back.start_index().into_inner(), back.length()), (usize::MAX, 0, 0));
    let back = BitSpan::<u64>::decode(usize::MAX, 7).unwrap();
    assert_eq!(
        (back.address(), back.start_index().into_inner(), back.length()),
        (usize::MAX - 7, 63, 0)
    );
    assert!(BitSpan::<u8>::decode(0, usize::MAX - 7).is_ok());
    assert!(matches!(BitSpan::<u8>::decode(0, usize::MAX), Err(BitError::Overflow)));
    assert!(matches!(BitSpan::<u64>::decode(7, usize::MAX - 7), Err(BitError::Overflow)));
}

#[test]
fn an_order_stands_in_only_for_itself() {
    assert!(check_interchangeable::<Lsb0, Lsb0>());
    assert!(check_interchangeable::<Msb0, Msb0>());
    assert!(!check_interchangeable::<Lsb0, Msb0>());
    assert!(!check_interchangeable::<Msb0, Lsb0>());
    for width in [8u8, 16, 32, 64] {
        assert!(check_agree_on::<Lsb0, Lsb0>(width));
        assert!(!check_agree_on::<Lsb0, Msb0>(width));
    }
}
