use bitio::bits::Bits;
use bitio::iter::BitIter;
use bitio::read::{BitRead, EofError};
use bitio::stream::{SliceSink, StreamError};
use bitio::write::BitWrite;

#[allow(non_snake_case)]
#[test]
fn test_BitIter() {
    let bytes: Vec<u8> = vec![0b1001_1101, 0b0110_1001];
    let mut bits = BitIter::new(bytes.clone());

    assert_eq!(bits.aligned(), true);
    assert_eq!(bits.read_bit(), Some(true));
    assert_eq!(bits.read_bit(), Some(false));
    assert_eq!(bits.read_bits(Bits::B4).map(|x| x & 0x0f), Some(0b0111));
    assert_eq!(bits.aligned(), false);
    assert_eq!(bits.to_read(), 2);
    assert_eq!(bits.read_bits(Bits::B4).map(|x| x & 0x0f), Some(0b0101));

    let bits = bits.into_inner();
    assert_eq!(bits, bytes[1..].to_vec());
}

#[test]
fn test_bit_iter_align() {
    let bytes: Vec<u8> = vec![0b1111_0000, 0b1010_1010];
    let mut bits = BitIter::new(bytes);
    assert_eq!(bits.read_bits(Bits::B3).map(|x| x & 0x07), Some(0b111));
    assert_eq!(bits.align(), Some(()));
    assert_eq!(bits.aligned(), true);
    assert_eq!(bits.read_bits(Bits::B8).ok_or(()), Ok(0b1010_1010));
    assert_eq!(bits.read_bit(), None);
    assert_eq!(bits.align(), Some(()));
}

#[test]
fn test_bit_read() {
    let bytes: Vec<u8> = vec![0b1001_1101, 0b0110_1001];
    let mut bits = BitRead::new(bytes.clone());

    assert_eq!(bits.aligned(), true);
    assert_eq!(bits.read_bit().ok(), Some(true));
    assert_eq!(bits.read_bit().ok(), Some(false));
    assert_eq!(bits.read_bits(4).ok().map(|x| x & 0x0f), Some(0b0111));
    assert_eq!(bits.aligned(), false);
    assert_eq!(bits.to_read(), 2);
    assert_eq!(bits.read_bits(4).ok().map(|x| x & 0x0f), Some(0b0101));

    let bits = bits.into_inner();
    assert_eq!(bits, bytes[1..].to_vec());

    let mut empty = BitRead::new(Vec::new());
    assert_eq!(empty.read_bit(), Err(EofError));
    assert_eq!(empty.read_bits(8), Err(EofError));
}

#[test]
fn test_bit_write() {
    let mut bits = BitWrite::new(SliceSink::new(vec![0, 0, 0xAD]));

    assert_eq!(bits.aligned(), true);
    assert_eq!(bits.to_write(), 0);
    assert!(bits.write_bit(true).is_ok());
    assert!(bits.write_bit(true).is_ok());
    assert!(bits.write_bit(false).is_ok());
    assert!(bits.write_bits(0b1011_0110, 3).is_ok());
    assert_eq!(bits.aligned(), false);
    assert_eq!(bits.to_write(), 2);
    assert!(bits.write_bits(0, 2).is_ok());
    assert_eq!(bits.aligned(), true);
    assert_eq!(bits.to_write(), 0);
    assert!(bits.write_bits(0b1011, 4).is_ok());
    assert_eq!(bits.aligned(), false);
    assert_eq!(bits.to_write(), 4);
    assert!(bits.write_bits(0b01, 2).is_ok());
    assert_eq!(bits.aligned(), false);
    assert_eq!(bits.to_write(), 2);
    match bits.into_inner() {
        Ok(sink) => assert_eq!(sink.to_vec(), vec![0b1101_1000, 0b1011_0100, 0xAD]),
        Err(_) => panic!("Expected the inner writer"),
    }

    let mut bits = BitWrite::new(SliceSink::new(Vec::new()));
    assert_eq!(bits.write_bits(0, 0).ok(), Some(()));
}

#[test]
fn test_bit_write_flush_error() {
    let mut bits = BitWrite::new(SliceSink::new(Vec::new()));
    assert!(bits.write_bits(0b101, 3).is_ok());
    assert_eq!(bits.to_write(), 5);
    assert!(bits.write_bits(0b111111, 6).is_err());
    match bits.into_inner() {
        Err(e) => {
            assert_eq!(e.error(), StreamError);
            let sink = e.into_inner();
            assert_eq!(sink.to_vec(), Vec::<u8>::new());
        },
        Ok(_) => panic!("Expected the flush to fail"),
    }
}
