use jar_rename::cursor::{ByteReader, ByteWriter};
use jar_rename::error::FormatError;

#[test]
fn reader_reads_big_endian_numbers_in_turn() {
    let bytes = vec![0xCAu8, 0xFE, 0xBA, 0xBE, 0x02, 0x05, 0x07, 0x09];
    let mut reader = ByteReader::new(&bytes);
    assert_eq!(reader.remaining_len(), 8);
    assert_eq!(reader.read_u32(), Ok(0xCAFE_BABE));
    assert_eq!(reader.read_u16(), Ok(517));
    assert_eq!(reader.read_u8(), Ok(7));
    assert_eq!(reader.remaining_len(), 1);
    assert_eq!(reader.read_u8(), Ok(9));
    assert_eq!(reader.remaining_len(), 0);
}

#[test]
fn reader_u16_is_not_little_endian() {
    let bytes = vec![0x01u8, 0x00];
    let mut reader = ByteReader::new(&bytes);
    assert_eq!(reader.read_u16(), Ok(256));
}

#[test]
fn reader_takes_exact_slices() {
    let bytes = vec![1u8, 2, 3, 4, 5];
    let mut reader = ByteReader::new(&bytes);
    assert_eq!(reader.read_exact(2), Ok(&bytes[0..2]));
    assert_eq!(reader.read_exact(0), Ok(&bytes[2..2]));
    assert_eq!(reader.read_exact(3), Ok(&bytes[2..5]));
    assert_eq!(reader.read_exact(0), Ok(&bytes[5..5]));
}

#[test]
fn reader_fails_on_a_short_buffer_and_stays_in_place() {
    let bytes = vec![1u8, 2, 3];
    let mut reader = ByteReader::new(&bytes);
    assert_eq!(reader.read_u32(), Err(FormatError::Truncated));
    assert_eq!(reader.remaining_len(), 3);
    assert_eq!(reader.read_exact(4), Err(FormatError::Truncated));
    assert_eq!(reader.read_u16(), Ok(0x0102));
    assert_eq!(reader.read_u16(), Err(FormatError::Truncated));
    assert_eq!(reader.read_u8(), Ok(3));
    assert_eq!(reader.read_u8(), Err(FormatError::Truncated));
}

#[test]
fn reader_on_an_empty_buffer() {
    let bytes: Vec<u8> = Vec::new();
    let mut reader = ByteReader::new(&bytes);
    assert_eq!(reader.read_u8(), Err(FormatError::Truncated));
    assert_eq!(reader.read_exact(0), Ok(&bytes[..]));
    assert_eq!(reader.read_to_end(), &bytes[..]);
}

#[test]
fn reader_hands_out_the_rest() {
    let bytes = vec![9u8, 8, 7, 6];
    let mut reader = ByteReader::new(&bytes);
    assert_eq!(reader.read_u8(), Ok(9));
    assert_eq!(reader.read_to_end(), &bytes[1..]);
    assert_eq!(reader.remaining_len(), 0);
    assert_eq!(reader.read_to_end(), &bytes[4..]);
}

#[test]
fn writer_appends_in_order() {
    let mut writer = ByteWriter::new();
    writer.write_u32(0xCAFE_BABE);
    writer.write_u16(517);
    writer.write_u8(0x7F);
    writer.write_all(&[1, 2, 3]);
    writer.write_all(&[]);
    writer.write_u16(0xFFFF);
    assert_eq!(
        writer.into_bytes(),
        vec![0xCA, 0xFE, 0xBA, 0xBE, 0x02, 0x05, 0x7F, 1, 2, 3, 0xFF, 0xFF]
    );
}

#[test]
fn writer_starts_empty() {
    assert_eq!(ByteWriter::new().into_bytes(), Vec::<u8>::new());
}

#[test]
fn what_is_written_reads_back() {
    for n in [0u16, 1, 255, 256, 517, 0x8000, 0xFFFF] {
        let mut writer = ByteWriter::new();
        writer.write_u16(n);
        let bytes = writer.into_bytes();
        assert_eq!(bytes.len(), 2);
        assert_eq!(ByteReader::new(&bytes).read_u16(), Ok(n));
    }
    for n in [0u32, 1, 0x0102_0304, 0xCAFE_BABE, 0xFFFF_FFFF] {
        let mut writer = ByteWriter::new();
        writer.write_u32(n);
        let bytes = writer.into_bytes();
        assert_eq!(bytes.len(), 4);
        assert_eq!(ByteReader::new(&bytes).read_u32(), Ok(n));
    }
}
