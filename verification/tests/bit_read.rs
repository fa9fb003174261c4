use bitio::bit_read::bit_reader::ReadIO;
use bitio::bit_read::{ReadByte, ReadIter};
use bitio::bits::Bits;
use bitio::stream::VecSource;

#[allow(non_snake_case)]
#[test]
fn test_ReadByte() {
    let byte: u8 = 0b11010111;
    let mut reader = ReadByte::new(byte);

    assert_eq!(reader.to_read(), Some(Bits::B8));
    assert_eq!(reader.read_bit(), Ok(true));
    assert_eq!(reader.read_bits(Bits::B3), Ok(0b1101));
    assert_eq!(reader.read_bit(), Ok(false));
    reader.set(byte);
    assert_eq!(reader.read_byte(), Ok(byte));
    reader.set(byte);
    reader.skip(Bits::B3).expect("Error skipping bits 1");
    assert_eq!(reader.to_read(), Some(Bits::B5));
    assert_eq!(reader.read_bits(Bits::B3), Ok(0b110101));
    reader.set(byte);
    reader.skip(Bits::B3).expect("Error skipping bits 2");
    assert_eq!(reader.read_bits(Bits::B8), Err(Some(Bits::B5)));
    assert_eq!(reader.into_buffer().map_err(|b| b.misalign()), Err(Bits::B5));
    reader.set(byte);
    reader.skip(Bits::B8).expect("Error skipping bits 3");
    assert_eq!(reader.read_bits(Bits::B8), Err(None));
    assert_eq!(reader.to_read(), None);
    assert_eq!(reader.into_buffer().ok(), Some(215));
    reader.set(byte);
    assert_eq!(reader.into_buffer().ok(), Some(byte));
}

#[allow(non_snake_case)]
#[test]
fn test_ReadIter() {
    let byte: u8 = 0b11010111;
    let bytes: Vec<u8> = vec![0b11010110, 0b10111110, 0b01011111];
    let mut reader = ReadIter::new(bytes.clone());

    assert_eq!(reader.to_read(), None);
    assert_eq!(reader.read_bit(), Ok(true));
    assert_eq!(reader.read_bits(Bits::B3), Ok(0b1101));
    assert_eq!(reader.read_bit(), Ok(false));
    assert_eq!(reader.read_byte(), Ok(byte));
    reader.skip(Bits::B3).expect("Error skipping bits 1");
    assert_eq!(reader.to_read(), None);
    assert_eq!(reader.read_bits(Bits::B3), Ok(0b11110010));
    reader.skip(Bits::B3).expect("Error skipping bits 2");
    assert_eq!(reader.read_bits(Bits::B8), Err(Some(Bits::B2)));
    match reader.into_iter() {
        Err(e) => assert_eq!(e.misalign(), Bits::B2),
        Ok(_) => panic!("Reader unwrapped unexpectedly"),
    }

    let mut reader = ReadIter::new(Vec::new());
    assert_eq!(reader.read_bits(Bits::B8), Err(None));
    assert_eq!(reader.to_read(), None);
    assert_eq!(reader.into_iter().ok(), Some(Vec::new()));
    assert_eq!(ReadIter::new(bytes.clone()).into_iter().ok(), Some(bytes));
}

#[allow(non_snake_case)]
#[test]
fn test_ReadIO() {
    let byte: u8 = 0b11010111;
    let bytes: Vec<u8> = vec![0b11010110, 0b10111110, 0b01011111];
    let mut reader = ReadIO::new(VecSource::new(bytes.clone()));

    assert_eq!(reader.to_read(), None);
    assert_eq!(reader.read_bit().ok(), Some(true));
    assert_eq!(reader.read_bits(Bits::B3).ok(), Some(0b1101));
    assert_eq!(reader.read_bit().ok(), Some(false));
    assert_eq!(reader.read_byte().ok(), Some(byte));
    reader.skip(Bits::B3).expect("Error skipping bits 1");
    assert_eq!(reader.to_read(), None);
    assert_eq!(reader.read_bits(Bits::B3).ok(), Some(0b11110010));
    reader.skip(Bits::B3).expect("Error skipping bits 2");
    assert_eq!(reader.read_bits(Bits::B8).map_err(|e| e.0), Err(Some(Bits::B2)));
    let mut reader = match reader.into_reader() {
        Err(e) => {
            assert_eq!(e.misalign(), Bits::B2);
            e.into_inner()
        },
        Ok(_) => panic!("Reader unwrapped unexpectedly"),
    };
    reader.skip(Bits::B2).expect("Error skipping bits 3");
    assert_eq!(reader.read_bits(Bits::B8).map_err(|e| e.0), Err(None));
    assert_eq!(reader.to_read(), None);
    match reader.into_reader() {
        Ok(src) => assert_eq!(src.rest(), Vec::<u8>::new()),
        Err(_) => panic!("Reader unwrapped unexpectedly"),
    }
    match ReadIO::new(VecSource::new(bytes.clone())).into_reader() {
        Ok(src) => assert_eq!(src.rest(), bytes),
        Err(_) => panic!("Reader unwrapped unexpectedly"),
    }
}
