use ripgzip::BitReader;
use ripgzip::BitSequence;
use ripgzip::ByteReader;
use ripgzip::Error;

#[test]
fn read_bits() {
    let data: &[u8] = &[0b01100011, 0b11011011, 0b10101111];
    let mut reader = BitReader::new(ByteReader::new(data));
    assert_eq!(reader.read_bits(1).unwrap(), BitSequence::new(0b1, 1));
    assert_eq!(reader.read_bits(2).unwrap(), BitSequence::new(0b01, 2));
    assert_eq!(reader.read_bits(3).unwrap(), BitSequence::new(0b100, 3));
    assert_eq!(reader.read_bits(4).unwrap(), BitSequence::new(0b1101, 4));
    assert_eq!(reader.read_bits(5).unwrap(), BitSequence::new(0b10110, 5));
    assert_eq!(reader.read_bits(8).unwrap(), BitSequence::new(0b01011111, 8));
    assert_eq!(reader.read_bits(2).unwrap_err(), Error::UnexpectedEof);
}

#[test]
fn borrow_reader_from_boundary() {
    let data: &[u8] = &[0b01100011, 0b11011011, 0b10101111];
    let mut reader = BitReader::new(ByteReader::new(data));
    assert_eq!(reader.read_bits(3).unwrap(), BitSequence::new(0b011, 3));
    assert_eq!(reader.borrow_reader_from_boundary().read_u8().unwrap(), 0b11011011);
    assert_eq!(reader.read_bits(8).unwrap(), BitSequence::new(0b10101111, 8));
}

#[test]
fn bit_sequence_masks_unused_bits() {
    // Bits above the declared length are zeroed on construction.
    assert_eq!(BitSequence::new(0xffff, 4).bits(), 0x000f);
    assert_eq!(BitSequence::new(0xffff, 0).bits(), 0);
    assert_eq!(BitSequence::new(0xffff, 16).bits(), 0xffff);
    assert_eq!(BitSequence::new(0b101, 3), BitSequence::new(0b11111101, 3));
}

#[test]
fn bit_sequence_equality_respects_length() {
    // The same raw pattern under different lengths never compares equal.
    assert_ne!(BitSequence::new(0b01, 2), BitSequence::new(0b01, 3));
    assert_ne!(BitSequence::new(0, 0), BitSequence::new(0, 1));
    assert_eq!(BitSequence::new(0b01, 2).len(), 2);
}

#[test]
fn bit_sequence_concat_and_shrink() {
    let a = BitSequence::new(0b01, 2);
    let b = BitSequence::new(0b111, 3);
    let c = a.concat(b);
    assert_eq!(c, BitSequence::new(0b11101, 5));
    let mut d = c;
    let low = d.shrink(2);
    assert_eq!(low, BitSequence::new(0b01, 2));
    assert_eq!(d, BitSequence::new(0b111, 3));
}

#[test]
fn byte_reader_reads_little_endian() {
    let data: &[u8] = &[0x34, 0x12, 0x78, 0x56, 0x34, 0x12];
    let mut r = ByteReader::new(data);
    assert_eq!(r.read_u16_le().unwrap(), 0x1234);
    assert_eq!(r.read_u32_le().unwrap(), 0x12345678);
    assert_eq!(r.read_u16_le().unwrap_err(), Error::UnexpectedEof);
}
