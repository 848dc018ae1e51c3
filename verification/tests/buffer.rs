use boi::blocks::{Block, Color, Offset, Pixel, Repeating};
use boi::buffer::{Buffer, BufferDecoder};
use boi::img;

#[test]
fn test_buffer_encoder() {
    let mut buffer = Buffer::new(0);
    buffer.push(Block::new(5, 0b10001));
    buffer.push(Block::new(5, 0b10001));
    buffer.push(Block::new(5, 0b10001));
    assert_eq!(buffer.bytes[0], 0b10001100);
    assert_eq!(buffer.bytes[1], 0b01100010);
    assert_eq!(buffer.len(), 2);
    assert_eq!(buffer.offset, 7);
}

#[test]
fn test_buffer_decoder() {
    let mut buffer = BufferDecoder::new(vec![0b10100001, 0b01101101, 0b101000]);
    assert_eq!(Some(0b1), buffer.next_n_bits(1));
    assert_eq!(Some(0b01000010), buffer.next_n_bits(8));
    assert_eq!(Some(0b1), buffer.next_n_bits(1));
    assert_eq!(Some(0b10), buffer.next_n_bits(2));
}

#[test]
fn push_keeps_only_the_low_bits() {
    let mut buffer = Buffer::new(4);
    buffer.push(Block::new(3, 0b101));
    buffer.push(Block::new(2, 0xff));
    buffer.push(Block::new(0, 0xff));
    assert_eq!(buffer.bytes, vec![0b10111_000]);
    buffer.push(Block::new(3, 0));
    assert_eq!(buffer.bytes, vec![0b10111_000]);
    assert_eq!(buffer.offset, 0);
    buffer.push(Block::new(56, 0x00ab_cdef_0123_4567));
    assert_eq!(
        buffer.bytes,
        vec![0b10111_000, 0xab, 0xcd, 0xef, 0x01, 0x23, 0x45, 0x67]
    );
}

#[test]
fn reader_from_bytes() {
    let mut buffer = BufferDecoder::from(vec![0x12, 0x34]);
    assert_eq!(buffer.index, 0);
    assert_eq!(buffer.offset, 0);
    assert_eq!(buffer.next_n_bits(16), Some(0x1234));
    assert_eq!(buffer.index, 2);
    let mut other: BufferDecoder = vec![0xf0].into();
    assert_eq!(other.next_n_bits(4), Some(0xf));
    assert_eq!((other.index, other.offset), (0, 4));
}

#[test]
fn reader_stops_at_the_end() {
    let mut buffer = BufferDecoder::new(vec![0xa5, 0x0f]);
    assert_eq!(buffer.next_n_bits(0), Some(0));
    assert_eq!(buffer.next_n_bits(12), Some(0xa50));
    assert_eq!(buffer.next_n_bits(5), None);
    assert_eq!(buffer.next_n_bits(4), Some(0xf));
    assert_eq!(buffer.next_n_bits(1), None);
    assert_eq!(buffer.next_n_bits(0), Some(0));
    assert!(buffer.at_padding());
}

#[test]
fn reader_takes_56_bits() {
    let mut buffer = BufferDecoder::new(vec![0xff, 1, 2, 3, 4, 5, 6, 7, 0x80]);
    assert_eq!(buffer.next_n_bits(7), Some(0x7f));
    assert_eq!(buffer.next_n_bits(56), Some(0x80_8101_8202_8303));
    assert_eq!(buffer.next_n_bits(9), Some(0x180));
    assert_eq!(buffer.next_n_bits(1), None);
}

#[test]
fn blocks_come_back_in_the_widths_they_went_in() {
    let blocks: Vec<(u64, usize)> = vec![
        (1, 1),
        (0xdead_beef, 32),
        (0, 3),
        (0x1f_ffff_ffff_ffff, 53),
        (5, 4),
        (0xab_cdef_0123_4567, 56),
        (1, 2),
        (0x155, 9),
        (0, 0),
        (0x3f, 6),
    ];
    let mut writer = Buffer::new(0);
    for (value, count) in blocks.iter() {
        writer.push(Block::new(*count, *value));
    }
    let mut reader = BufferDecoder::new(writer.bytes);
    for (value, count) in blocks.iter() {
        assert_eq!(reader.next_n_bits(*count), Some(*value));
    }
    assert!(reader.at_padding());
}

#[test]
fn next_code_reads_each_prefix() {
    // 00 01 100 101 110 1110 1111, then 111 and the end.
    let mut reader = BufferDecoder::new(vec![0b00011001, 0b01110111, 0b01111111]);
    for code in [0b00, 0b01, 0b100, 0b101, 0b110, 0b1110, 0b1111] {
        assert_eq!(reader.next_code(), Some(code));
    }
    assert_eq!(reader.next_code(), None);
    assert_eq!(reader.next_n_bits(3), Some(0b111));
    assert!(reader.at_padding());
}

#[test]
fn next_block_reads_code_and_payload() {
    let mut writer = Buffer::new(0);
    writer.push(Block::new(3, 0b111));
    writer.push(Repeating::encode(64));
    writer.push(Color::encode(9));
    writer.push(Offset::encode(33));
    writer.push(Pixel::encode(&img::Pixel::<3>([1, -2, 3])));
    writer.push(Pixel::encode(&img::Pixel::<3>([-30, 0, 9])));
    writer.push(Pixel::encode(&img::Pixel::<3>([-256, 255, 100])));
    let mut reader = BufferDecoder::new(writer.bytes);
    assert_eq!(reader.next_n_bits(3), Some(7));
    assert_eq!(reader.next_block::<3>(), Some((0b100, 63)));
    assert_eq!(reader.next_block::<3>(), Some((0b01, 9)));
    assert_eq!(reader.next_block::<3>(), Some((0b1111, 33)));
    assert_eq!(reader.next_block::<3>(), Some((0b00, 0b0001_1110_0011)));
    assert_eq!(reader.next_block::<3>(), Some((0b110, 0b100010_000000_001001)));
    assert_eq!(
        reader.next_block::<3>(),
        Some((0b1110, 0b100000000_011111111_001100100))
    );
    assert_eq!(reader.next_block::<3>(), None);
    assert!(reader.at_padding());
}

#[test]
fn next_block_leaves_the_cursor_when_it_fails() {
    // A long pixel of three channels needs 31 bits; 24 are there.
    let mut reader = BufferDecoder::new(vec![0b11100000, 0, 1]);
    assert_eq!(reader.next_block::<3>(), None);
    assert!(!reader.at_padding());
    assert_eq!(reader.next_n_bits(24), Some(0xe00001));
    assert!(reader.at_padding());
}

#[test]
fn padding_is_fewer_than_eight_zero_bits() {
    let mut reader = BufferDecoder::new(vec![0xff, 0x80]);
    assert!(!reader.at_padding());
    assert_eq!(reader.next_n_bits(8), Some(0xff));
    assert!(!reader.at_padding());
    assert_eq!(reader.next_n_bits(1), Some(1));
    assert!(reader.at_padding());
    let mut ones = BufferDecoder::new(vec![0x81]);
    assert_eq!(ones.next_n_bits(1), Some(1));
    assert!(!ones.at_padding());
    assert!(BufferDecoder::new(vec![]).at_padding());
    assert!(!BufferDecoder::new(vec![0]).at_padding());
}
