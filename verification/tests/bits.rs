use bitio::bits::iter::{Cycle, RevCycle};
use bitio::bits::{Bits, FromU8Error};

#[test]
fn test_bits() {
    let all: Vec<Bits> = vec![
        Bits::B1,
        Bits::B2,
        Bits::B3,
        Bits::B4,
        Bits::B5,
        Bits::B6,
        Bits::B7,
        Bits::B8,
    ];
    for bit in all.iter().copied() {
        assert_eq!(
            bit.recip().and_then(Bits::recip).unwrap_or(Bits::B8),
            bit,
            "`recip` is not reciprocal",
        );
        assert_eq!(
            8 - bit.mask().leading_zeros(),
            bit.get() as u32,
            "`mask` failed on {}",
            bit.get(),
        );
        assert_eq!(
            bit.not_mask().trailing_zeros(),
            bit.get() as u32,
            "`not_mask` failed on {}",
            bit.get(),
        );
        assert_eq!(
            Bits::unused_bits(bit.mask()).and_then(Bits::recip),
            Some(bit).filter(|&b| b != Bits::B8),
            "`unused_bits` failed on {}",
            bit.get(),
        );
        assert_eq!(
            Bits::used_bits(bit.mask()),
            Some(bit),
            "`used_bits` failed on {}",
            bit.get(),
        );
        assert_eq!(
            bit.bit(),
            1u8.wrapping_shl(bit.get() as u32 - 1),
            "`bit` failed on {}",
            bit.get(),
        );
        assert_eq!(Bits::as_u8(Some(bit)), bit.get(), "`as_u8` failed on {}", bit.get());
    }
    assert_eq!(Bits::as_u8(None), 0, "`as_u8` failed on `None`");
    assert_eq!(Bits::try_from(0), Err(FromU8Error), "`try_from 1` failed");
    assert_eq!(Bits::try_from(9), Err(FromU8Error), "`try_from 2` failed");
    assert_eq!(Bits::try_from(5), Ok(Bits::B5), "`try_from 3` failed");
}

#[test]
fn test_bits_masks_exact() {
    let widths: Vec<(Bits, u8, u8, u8)> = vec![
        (Bits::B1, 0b0000_0001, 0b1111_1110, 0b0000_0001),
        (Bits::B2, 0b0000_0011, 0b1111_1100, 0b0000_0010),
        (Bits::B3, 0b0000_0111, 0b1111_1000, 0b0000_0100),
        (Bits::B4, 0b0000_1111, 0b1111_0000, 0b0000_1000),
        (Bits::B5, 0b0001_1111, 0b1110_0000, 0b0001_0000),
        (Bits::B6, 0b0011_1111, 0b1100_0000, 0b0010_0000),
        (Bits::B7, 0b0111_1111, 0b1000_0000, 0b0100_0000),
        (Bits::B8, 0b1111_1111, 0b0000_0000, 0b1000_0000),
    ];
    for (b, mask, not_mask, single) in widths {
        assert_eq!(b.mask(), mask);
        assert_eq!(b.not_mask(), not_mask);
        assert_eq!(b.bit(), single);
        assert_eq!(b.mask().count_ones(), b.get() as u32);
        assert_eq!(b.bit().count_ones(), 1);
    }
}

#[test]
fn test_bits_min_max() {
    assert_eq!(Bits::B3.min(Bits::B5), Bits::B3);
    assert_eq!(Bits::B5.min(Bits::B3), Bits::B3);
    assert_eq!(Bits::B3.max(Bits::B5), Bits::B5);
    assert_eq!(Bits::B8.max(Bits::B1), Bits::B8);
    assert_eq!(Bits::B4.min(Bits::B4), Bits::B4);
}

#[test]
fn test_bits_used_unused_edges() {
    assert_eq!(Bits::unused_bits(0), Some(Bits::B8));
    assert_eq!(Bits::used_bits(0), None);
    assert_eq!(Bits::unused_bits(0xFF), None);
    assert_eq!(Bits::used_bits(0xFF), Some(Bits::B8));
    assert_eq!(Bits::unused_bits(0b0001_0000), Some(Bits::B3));
    assert_eq!(Bits::used_bits(0b0001_0000), Some(Bits::B5));
}

#[test]
fn test_cycle() {
    let mut c = Cycle::new();
    assert_eq!(c.into(), Some(Bits::B1));
    assert_eq!(c.len(), 8);
    let mut seen: Vec<Bits> = Vec::new();
    loop {
        match c.next() {
            Some(b) => seen.push(b),
            None => break,
        }
    }
    assert_eq!(
        seen,
        vec![
            Bits::B1,
            Bits::B2,
            Bits::B3,
            Bits::B4,
            Bits::B5,
            Bits::B6,
            Bits::B7,
            Bits::B8,
        ],
    );
    assert_eq!(c.len(), 0);
    assert_eq!(c.into(), None);
}

#[test]
fn test_rev_cycle() {
    let mut c = RevCycle::new();
    assert_eq!(c.into(), Some(Bits::B8));
    assert_eq!(c.len(), 8);
    let mut seen: Vec<Bits> = Vec::new();
    loop {
        match c.next() {
            Some(b) => seen.push(b),
            None => break,
        }
    }
    assert_eq!(
        seen,
        vec![
            Bits::B8,
            Bits::B7,
            Bits::B6,
            Bits::B5,
            Bits::B4,
            Bits::B3,
            Bits::B2,
            Bits::B1,
        ],
    );
    assert_eq!(c.len(), 0);
}
