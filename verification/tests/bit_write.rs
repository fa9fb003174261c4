use bitio::bit_write::bit_writer::WriteIO;
use bitio::bit_write::{WriteByte, WriteIter, WriteSlice, WriteVec};
use bitio::bits::Bits;
use bitio::stream::SliceSink;

#[allow(non_snake_case)]
#[test]
fn test_WriteByte() {
    let byte: u8 = 0b11010111;
    let mut writer = WriteByte::empty();

    assert_eq!(writer.to_write(), Some(Bits::B8));
    assert_eq!(writer.into_buffer().ok(), Some(0));
    assert!(writer.write_bit(true).is_ok());
    assert!(writer.into_buffer().is_err());
    assert_eq!(writer.write_bits(Bits::B3, 0b110101), Ok(Bits::B3));
    assert_eq!(writer.write_byte(0b01110110).err(), Some(Bits::B4));
    assert_eq!(writer.write_bit(true).err(), Some(Bits::B1));
    assert_eq!(writer.reset(), byte);
    assert_eq!(writer.write_bits(Bits::B3, 0b100110), Ok(Bits::B3));
    assert_eq!(writer.write_bits(Bits::B5, 0b11110111), Ok(Bits::B5));
    assert_eq!(writer.into_buffer().ok(), Some(byte));
}

#[allow(non_snake_case)]
#[test]
fn test_WriteSlice() {
    let mut writer = WriteSlice::new(vec![0u8; 2]);

    assert_eq!(writer.to_write(), None);
    assert!(writer.write_bit(true).is_ok());
    assert_eq!(writer.write_bits(Bits::B3, 0b111101).ok(), Some(Bits::B3));
    assert_eq!(writer.write_bits(Bits::B4, 0b0110111).ok(), Some(Bits::B4));
    match writer.into_slice() {
        Ok(Some(slice)) => assert_eq!(slice, vec![0]),
        e => panic!("Expected slice, found: {:?}", e),
    }

    let mut writer = WriteSlice::new(vec![0u8; 2]);
    assert_eq!(writer.write_bits(Bits::B4, 0b1011010).ok(), Some(Bits::B4));
    assert_eq!(writer.to_write(), Some(Bits::B4));
    assert_eq!(writer.write_bits(Bits::B3, 0b10001).ok(), Some(Bits::B3));
    let mut writer = match writer.into_slice() {
        Err(e) => e.into_inner(),
        e => panic!("Expected error, found: {:?}", e),
    };
    assert!(writer.write_byte(!0).is_ok());
    assert_eq!(writer.to_write(), Some(Bits::B1));
    assert_eq!(writer.write_bits(Bits::B3, 0b111), Err(Bits::B2));
    assert_eq!(writer.to_write(), None);
    assert_eq!(writer.write_byte(0).err(), Some(Bits::B8));
    assert_eq!(writer.to_vec(), vec![0b10100011, 0b11111111]);
    assert_eq!(writer.into_slice().ok(), Some(None));
}

#[allow(non_snake_case)]
#[test]
fn test_WriteVec() {
    let mut writer = WriteVec::new();

    assert_eq!(writer.to_write(), None);
    assert!(writer.write_bit(true).is_ok());
    assert_eq!(writer.write_bits(Bits::B3, 0b111101).ok(), Some(Bits::B3));
    assert_eq!(writer.write_bits(Bits::B4, 0b0110111).ok(), Some(Bits::B4));
    match writer.into_vec() {
        Ok(vec) => assert_eq!(vec, vec![0b11010111]),
        Err(e) => panic!("Expected slice, found: {:?}", e),
    }

    let mut writer = WriteVec::new();
    assert_eq!(writer.write_bits(Bits::B4, 0b1011010).ok(), Some(Bits::B4));
    assert_eq!(writer.to_write(), Some(Bits::B4));
    assert_eq!(writer.write_bits(Bits::B3, 0b10001).ok(), Some(Bits::B3));
    let mut writer = match writer.into_vec() {
        Err(e) => e.into_inner(),
        Ok(e) => panic!("Expected error, found: {:?}", e),
    };
    assert!(writer.write_byte(!0).is_ok());
    assert_eq!(writer.to_write(), Some(Bits::B1));
    assert_eq!(writer.write_bits(Bits::B1, 0b111), Ok(Bits::B1));
    assert_eq!(writer.to_write(), None);
    writer.write_byte(0).expect("Error writing");
    assert_eq!(writer.into_vec().ok(), Some(vec![0b10100011, 0b11111111, 0b00000000]));
}

#[allow(non_snake_case)]
#[test]
fn test_WriteIter() {
    let mut writer = WriteIter::new(vec![0u8; 2]);
    assert_eq!(writer.to_write(), None);
    assert!(writer.write_bit(true).is_ok());
    assert_eq!(writer.write_bits(Bits::B3, 0b111101).ok(), Some(Bits::B3));
    assert_eq!(writer.write_bits(Bits::B4, 0b0110111).ok(), Some(Bits::B4));
    match writer.into_iter() {
        Ok(rest) => assert_eq!(rest, vec![0]),
        Err(e) => panic!("Expected slots, found: {:?}", e),
    }

    let mut writer = WriteIter::new(vec![0u8; 1]);
    assert_eq!(writer.write_bits(Bits::B5, 0b10111).ok(), Some(Bits::B5));
    assert_eq!(writer.to_write(), Some(Bits::B3));
    assert_eq!(writer.write_bits(Bits::B5, 0b11111), Err(Bits::B2));
    assert_eq!(writer.to_write(), None);
    assert_eq!(writer.write_bit(false).err(), Some(Bits::B1));
    match writer.into_iter() {
        Ok(rest) => assert_eq!(rest, Vec::<u8>::new()),
        Err(e) => panic!("Expected slots, found: {:?}", e),
    }
}

#[allow(non_snake_case)]
#[test]
fn test_WriteIO() {
    let mut writer = WriteIO::new(SliceSink::new(vec![0u8; 2]));

    assert_eq!(writer.to_write(), None);
    assert!(writer.write_bit(true).is_ok());
    assert_eq!(writer.write_bits(Bits::B3, 0b111101).ok(), Some(Bits::B3));
    assert_eq!(writer.write_bits(Bits::B4, 0b0110111).ok(), Some(Bits::B4));
    match writer.into_writer() {
        Ok(sink) => {
            assert_eq!(sink.room(), 1);
            assert_eq!(sink.to_vec(), vec![0b11010111, 0]);
        },
        Err(e) => panic!("Expected slice, found: {:?}", e),
    }

    let mut writer = WriteIO::new(SliceSink::new(vec![0u8; 2]));
    assert_eq!(writer.write_bits(Bits::B4, 0b1011010).ok(), Some(Bits::B4));
    assert_eq!(writer.to_write(), Some(Bits::B4));
    assert_eq!(writer.write_bits(Bits::B3, 0b10001).ok(), Some(Bits::B3));
    let mut writer = match writer.into_writer() {
        Err(e) => e.into_inner(),
        Ok(e) => panic!("Expected error, found: {:?}", e),
    };
    assert!(writer.write_byte(!0).is_ok());
    assert_eq!(writer.to_write(), Some(Bits::B1));
    assert_eq!(writer.write_bits(Bits::B1, 0b111).ok(), Some(Bits::B1));
    assert_eq!(writer.to_write(), None);
    assert!(writer.write_byte(0).is_err());
    let cleared = writer.clear_buffer();
    assert_eq!(cleared.to_write(), None);
    assert_eq!(cleared.into_buffer().ok(), Some(0));
    match writer.into_writer() {
        Ok(sink) => {
            assert_eq!(sink.room(), 0);
            assert_eq!(sink.to_vec(), vec![0b10100011u8, 0b11111111]);
        },
        Err(e) => panic!("Expected slice, found: {:?}", e),
    }
}
