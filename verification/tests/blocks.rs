use boi::blocks::{Block, Color, Gray, Offset, Pixel, Repeating, Typ};
use boi::img;

#[test]
fn block_to_bytes() {
    let offset = 5;
    let block = Block::new(8, 0b11110001);
    let (bytes, count, new_offset) = block.into_bytes(offset);
    assert_eq!(bytes[0], 7);
    assert_eq!(bytes[1], 136);
    assert_eq!(count, 2);
    assert_eq!(new_offset, 5);
}

#[test]
fn into_bytes_edges() {
    let (bytes, count, offset) = Block::new(0, 0xff).into_bytes(0);
    assert_eq!((bytes, count, offset), ([0; 8], 0, 0));
    let (bytes, count, offset) = Block::new(56, u64::MAX).into_bytes(7);
    assert_eq!(bytes, [1, 255, 255, 255, 255, 255, 255, 254]);
    assert_eq!((count, offset), (8, 7));
    let (bytes, count, offset) = Block::new(8, 0x1ab).into_bytes(0);
    assert_eq!(bytes[0], 0xab);
    assert_eq!((count, offset), (1, 0));
}

#[test]
fn new_with_code_joins_code_and_value() {
    let block = Block::new_with_code(6, 0b1100_0101, 3, 0b100);
    assert_eq!(block.value, 0b100_000101);
    assert_eq!(block.bit_count, 9);
}

#[test]
fn encode_repeating() {
    let block = Repeating::encode(8);
    assert_eq!(0b100000111, block.value);
    assert_eq!(9, block.bit_count);
    let (bytes, count, _) = block.into_bytes(0);
    assert_eq!(0b10000011, bytes[0]);
    assert_eq!(0b10000000, bytes[1]);
    assert_eq!(2, count);
    assert_eq!(Repeating::encode(64).value, 0b100111111);
    assert_eq!(Repeating::encode(1).value, 0b100000000);
    assert_eq!(Repeating::MAX, 64);
}

#[test]
fn encode_pixel() {
    let block = Pixel::encode(&img::Pixel::<3>([0; 3]));
    assert_eq!(block.value, 0);
    assert_eq!(block.bit_count, 14);
    let block = Pixel::encode(&img::Pixel::<3>([15; 3]));
    assert_eq!(0b110_001111_001111_001111, block.value);
    assert_eq!(block.bit_count, 21);
    let block = Pixel::encode(&img::Pixel::<3>([-8, 7, -1]));
    assert_eq!(0b00_1000_0111_1111, block.value);
    let block = Pixel::encode(&img::Pixel::<4>([0, 0, 0, 32]));
    assert_eq!(block.value, 0b1110_000000000_000000000_000000000_000100000);
    assert_eq!(block.bit_count, 40);
    let block = Pixel::encode(&img::Pixel::<4>([-32, 31, 0, -9]));
    assert_eq!(block.value, 0b110_100000_011111_000000_110111);
    assert_eq!(block.bit_count, 27);
    let block = Pixel::encode(&img::Pixel::<3>([-255, 255, -33]));
    assert_eq!(block.value, 0b1110_100000001_011111111_111011111);
}

#[test]
fn encode_as_long() {
    let block = Pixel::encode_as(&img::Pixel::<3>([1, -1, 0]), Typ::Long);
    assert_eq!(block.value, 0b1110_000000001_111111111_000000000);
    assert_eq!(block.bit_count, 31);
}

#[test]
fn encode_color() {
    let block = Color::encode(5);
    assert_eq!(block.value, 0b01_0101);
    assert_eq!(block.bit_count, 6);
    assert_eq!(Color::encode(15).value, 0b01_1111);
    assert_eq!(Color::MAX, 16);
}

#[test]
fn encode_offset() {
    let block = Offset::encode(44);
    assert_eq!(block.value, 0b1111_101100);
    assert_eq!(block.bit_count, 10);
    assert_eq!(Offset::encode(0).value, 0b1111_000000);
    assert_eq!(Offset::MAX, 64);
    assert_eq!(Offset::MASK, 63);
}

#[test]
fn encode_gray() {
    let block = Gray::encode(&img::Pixel::<3>([-1, -1, -1]));
    assert_eq!(block.value, 0b101_11);
    assert_eq!(block.bit_count, 5);
    assert_eq!(Gray::encode(&img::Pixel::<4>([1, 1, 1, 9])).value, 0b101_01);
}

#[test]
fn gray_pixels() {
    assert!(Gray::is_gray(&img::Pixel::<3>([0, 0, 0])));
    assert!(Gray::is_gray(&img::Pixel::<3>([-8, -8, -8])));
    assert!(Gray::is_gray(&img::Pixel::<4>([7, 7, 7, 100])));
    assert!(!Gray::is_gray(&img::Pixel::<3>([8, 8, 8])));
    assert!(!Gray::is_gray(&img::Pixel::<3>([-9, -9, -9])));
    assert!(!Gray::is_gray(&img::Pixel::<3>([1, 1, 2])));
    assert!(!Gray::is_gray(&img::Pixel::<3>([1, 2, 2])));
}

#[test]
fn decode_pixel() {
    assert_eq!(
        Pixel::<3>::decode(0b1000_0111_1111, 0b00),
        img::Pixel([-8, 7, -1])
    );
    assert_eq!(
        Pixel::<4>::decode(0b100000_011111_000000_110111, 0b110),
        img::Pixel([-32, 31, 0, -9])
    );
    assert_eq!(
        Pixel::<3>::decode(0b100000001_011111111_111011111, 0b1110),
        img::Pixel([-255, 255, -33])
    );
    assert_eq!(
        Pixel::<3>::decode(0b100000000_000000000_000000001, 0b1110),
        img::Pixel([-256, 0, 1])
    );
}

#[test]
fn pixel_blocks_round_trip() {
    for a in [-256i16, -255, -33, -32, -9, -8, -1, 0, 1, 7, 8, 31, 32, 255] {
        for b in [-256i16, -8, 0, 7, 255] {
            let pixel = img::Pixel::<4>([a, b, 0, -1]);
            let block = Pixel::encode(&pixel);
            let (code, code_len) = if block.bit_count == 18 {
                (0b00, 2)
            } else if block.bit_count == 27 {
                (0b110, 3)
            } else {
                (0b1110, 4)
            };
            let payload = block.bit_count - code_len;
            assert_eq!(block.value >> payload, code);
            let value = block.value & ((1u64 << payload) - 1);
            assert_eq!(Pixel::<4>::decode(value, code), pixel);
        }
    }
}

#[test]
fn extend_sign_values() {
    assert_eq!(Pixel::<3>::extend_sign(0b1000, 4) as i16, -8);
    assert_eq!(Pixel::<3>::extend_sign(0b0100, 4) as i16, 4);
    assert_eq!(Pixel::<3>::extend_sign(0b111000, 6) as i16, -8);
    assert_eq!(Pixel::<3>::extend_sign(0b1_0000_0001, 9) as i64, -255);
    assert_eq!(Pixel::<3>::extend_sign(0xfff7, 4), 7);
    assert_eq!(Pixel::<3>::extend_sign(0b1000, 4), u64::MAX - 7);
    assert_eq!(Pixel::<3>::extend_sign(1, 1), u64::MAX);
    assert_eq!(Pixel::<3>::extend_sign(0x8000_0000_0000_0001, 64), 0x8000_0000_0000_0001);
}

#[test]
fn extend_sign_is_idempotent() {
    for w in [4usize, 6, 9] {
        for x in 0..(1u64 << w) {
            let once = Pixel::<3>::extend_sign(x, w);
            assert_eq!(Pixel::<3>::extend_sign(once, w), once);
        }
    }
}

#[test]
fn kinds_table() {
    let kinds = [
        (Typ::<4>::Short, 0b00, 2, 16),
        (Typ::Color, 0b01, 2, 4),
        (Typ::Repeating, 0b100, 3, 6),
        (Typ::Gray, 0b101, 3, 2),
        (Typ::Medium, 0b110, 3, 24),
        (Typ::Long, 0b1110, 4, 36),
        (Typ::Offset, 0b1111, 4, 6),
    ];
    for (typ, code, code_len, payload) in kinds {
        assert_eq!(typ.code(), code);
        assert_eq!(typ.code_len(), code_len);
        assert_eq!(typ.payload_len(), payload);
        assert_eq!(typ.size(), code_len + payload);
        assert_eq!(Typ::<4>::from_code(code), Some(typ));
        assert_eq!(Block::block_len::<4>(code), payload);
    }
    assert_eq!(Typ::<3>::Short.size(), 14);
    assert_eq!(Typ::<3>::Medium.size(), 21);
    assert_eq!(Typ::<3>::Long.size(), 31);
    assert_eq!(Block::block_len::<3>(0b1110), 27);
    for code in [2u64, 3, 7, 8, 13, 16, 100] {
        assert_eq!(Typ::<3>::from_code(code), None);
    }
}

#[test]
fn prefix_codes_are_prefix_free() {
    let codes: [(u64, usize); 7] = [
        (0b00, 2),
        (0b01, 2),
        (0b100, 3),
        (0b101, 3),
        (0b110, 3),
        (0b1110, 4),
        (0b1111, 4),
    ];
    for (i, (a, la)) in codes.iter().enumerate() {
        for (j, (b, lb)) in codes.iter().enumerate() {
            if i != j && la <= lb {
                assert_ne!(*a, b >> (lb - la));
            }
        }
    }
}
