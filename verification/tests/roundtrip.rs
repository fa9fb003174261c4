use bitio::bit_read::bit_reader::ReadIO;
use bitio::bit_read::{ReadByte, ReadIter};
use bitio::bit_write::bit_writer::WriteIO;
use bitio::bit_write::{WriteByte, WriteSlice, WriteVec};
use bitio::bits::Bits;
use bitio::stream::{VecSink, VecSource};

#[test]
fn round_trip_vec_to_iter() {
    let pairs: Vec<(Bits, u8)> = vec![
        (Bits::B3, 0b101),
        (Bits::B5, 0b11011),
        (Bits::B8, 0xA7),
        (Bits::B1, 0b1),
        (Bits::B7, 0b0101100),
    ];
    let total: u32 = pairs.iter().map(|p| p.0.get() as u32).sum();
    assert_eq!(total % 8, 0);

    let mut writer = WriteVec::new();
    for (w, v) in pairs.iter().copied() {
        assert_eq!(writer.write_bits(w, v), Ok(w));
    }
    let bytes = writer.into_vec().expect("the total width is a multiple of eight");
    assert_eq!(bytes.len() as u32, total / 8);

    let mut reader = ReadIter::new(bytes);
    for (w, v) in pairs.iter().copied() {
        let got = reader.read_bits(w).expect("enough bits were written");
        assert_eq!(got & w.mask(), v & w.mask());
    }
    assert_eq!(reader.read_bits(Bits::B1), Err(None));
}

#[test]
fn round_trip_streams() {
    let pairs: Vec<(Bits, u8)> = vec![
        (Bits::B2, 0b10),
        (Bits::B6, 0b110011),
        (Bits::B4, 0b0110),
        (Bits::B4, 0b1001),
    ];
    let mut writer = WriteIO::new(VecSink::new());
    for (w, v) in pairs.iter().copied() {
        assert_eq!(writer.write_bits(w, v).ok(), Some(w));
    }
    let bytes = match writer.into_writer() {
        Ok(sink) => sink.into_vec(),
        Err(_) => panic!("the total width is a multiple of eight"),
    };
    assert_eq!(bytes, vec![0b10110011, 0b01101001]);

    let mut reader = ReadIO::new(VecSource::new(bytes));
    for (w, v) in pairs.iter().copied() {
        let got = reader.read_bits(w).expect("enough bits were written");
        assert_eq!(got & w.mask(), v & w.mask());
    }
    assert!(reader.read_bit().is_err());
}

#[test]
fn alignment_follows_remaining_width() {
    let mut reader = ReadByte::new(0xF0);
    assert!(reader.is_aligned());
    assert_eq!(reader.read_bit(), Ok(true));
    assert!(!reader.is_aligned());
    let _ = reader.skip(Bits::B7);
    assert_eq!(reader.to_read(), None);
    assert!(reader.is_aligned());

    let mut writer = WriteByte::empty();
    assert!(writer.is_aligned());
    assert!(writer.write_bit(false).is_ok());
    assert!(!writer.is_aligned());
    assert_eq!(writer.write_bits(Bits::B7, 0), Ok(Bits::B7));
    assert!(writer.is_aligned());
    assert_eq!(writer.to_write(), None);
}

#[test]
fn boundary_exact_width_stays_in_byte() {
    let bytes: Vec<u8> = vec![0b1010_1111, 0b0000_0001];
    let mut reader = ReadIter::new(bytes);
    assert_eq!(reader.read_bits(Bits::B5).map(|v| v & Bits::B5.mask()), Ok(0b10101));
    // A request of exactly the remaining width ends at the byte edge
    // without pulling the next byte.
    assert_eq!(reader.read_bits(Bits::B3).map(|v| v & Bits::B3.mask()), Ok(0b111));
    assert_eq!(reader.into_iter().ok(), Some(vec![0b0000_0001]));

    let bytes: Vec<u8> = vec![0b1010_1111, 0b0100_0000];
    let mut reader = ReadIter::new(bytes);
    assert_eq!(reader.read_bits(Bits::B5).map(|v| v & Bits::B5.mask()), Ok(0b10101));
    // One more bit than the remaining width crosses into the next byte.
    assert_eq!(reader.read_bits(Bits::B4).map(|v| v & Bits::B4.mask()), Ok(0b1110));
    match reader.into_iter() {
        Err(e) => assert_eq!(e.misalign(), Bits::B7),
        Ok(_) => panic!("a crossing read leaves the next byte partial"),
    }
}

#[test]
fn exhaustion_reports_nothing_available() {
    let mut reader = ReadIter::new(Vec::new());
    assert_eq!(reader.read_bits(Bits::B4), Err(None));
    assert_eq!(reader.read_bit(), Err(None));

    let mut reader = ReadIO::new(VecSource::new(Vec::new()));
    assert_eq!(reader.read_bits(Bits::B4).map_err(|e| e.0), Err(None));

    let mut writer = WriteSlice::new(Vec::new());
    assert_eq!(writer.write_bits(Bits::B7, 0b1111111), Err(Bits::B7));
    assert_eq!(writer.write_byte(0).err(), Some(Bits::B8));
}

#[test]
fn scenario_read_byte_cursor() {
    let mut reader = ReadByte::new(0b11010111);
    assert_eq!(reader.read_bit(), Ok(true));
    assert_eq!(reader.to_read(), Some(Bits::B7));
    let three = reader.read_bits(Bits::B3).expect("seven bits remain");
    assert_eq!(three & Bits::B3.mask(), 0b101);
    assert_eq!(three & Bits::B3.mask(), 5);
    assert_eq!(reader.to_read(), Some(Bits::B4));
    assert_eq!(reader.read_bits(Bits::B8), Err(Some(Bits::B4)));
    match reader.into_buffer() {
        Err(e) => assert_eq!(e.misalign(), Bits::B4),
        Ok(_) => panic!("a partially read byte cannot be unwrapped"),
    }
}

#[test]
fn scenario_write_byte_cursor() {
    let mut writer = WriteByte::empty();
    assert_eq!(writer.write_bits(Bits::B3, 0b101), Ok(Bits::B3));
    assert_eq!(writer.write_bits(Bits::B4, 0b0111), Ok(Bits::B4));
    let writer = match writer.into_buffer() {
        Err(e) => {
            assert_eq!(e.misalign(), Bits::B1);
            e.into_inner()
        },
        Ok(_) => panic!("a partially filled byte cannot be unwrapped"),
    };
    let mut writer = writer;
    assert_eq!(writer.reset() >> 1, 0b1010111);
}
