use boi::buffer::BufferDecoder;
use boi::decoder::{decode, Decoder};
use boi::encoder::Encoder;
use boi::error::DecodeError;
use boi::img::Header;

#[test]
fn empty_stream_is_truncated() {
    assert_eq!(decode(vec![]), Err(DecodeError::Truncated));
    assert_eq!(Decoder::<3>::decode(vec![]), Err(DecodeError::Truncated));
}

#[test]
fn stream_cut_in_the_header_is_truncated() {
    let encoded = Encoder::<3>::encode(&[1, 2, 3], 1, 1).unwrap();
    for len in 0..71 {
        assert_eq!(
            decode(encoded[..len].to_vec()),
            Err(DecodeError::Truncated),
            "cut at {}",
            len
        );
    }
}

#[test]
fn stream_cut_in_the_body_is_refused() {
    let raw: Vec<u8> = (0..48u8).map(|i| i.wrapping_mul(37)).collect();
    let encoded = Encoder::<3>::encode(&raw, 4, 4).unwrap();
    assert_eq!(decode(encoded.clone()), Ok((raw, 4, 4)));
    for len in 71..encoded.len() {
        assert!(decode(encoded[..len].to_vec()).is_err(), "cut at {}", len);
    }
}

#[test]
fn bits_after_the_last_block_are_truncated_blocks() {
    // 705 bits of header and 9 bits of a run: six bits of padding.
    let encoded = Encoder::<4>::encode(&[0, 0, 0, 0], 1, 1).unwrap();
    assert_eq!(encoded.len(), 90);
    // One more byte: with the padding, a short pixel that ends after three channels.
    let mut ones = encoded.clone();
    ones.push(0xff);
    assert_eq!(decode(ones), Err(DecodeError::Truncated));
    // A whole byte of zeros is more than padding.
    let mut zeros = encoded.clone();
    zeros.push(0);
    assert_eq!(decode(zeros), Err(DecodeError::Truncated));
    // A bit set in the padding begins a block that does not end.
    let mut dirty = encoded.clone();
    dirty[89] |= 1;
    assert_eq!(decode(dirty), Err(DecodeError::Truncated));
}

#[test]
fn whole_block_after_the_last_pixel_is_a_dimension_mismatch() {
    // Three channels: six bits of padding and one more byte are a short pixel.
    let mut encoded = Encoder::<3>::encode(&[0, 0, 0], 1, 1).unwrap();
    encoded.push(0xff);
    assert_eq!(decode(encoded), Err(DecodeError::DimensionMismatch));
}

#[test]
fn gray_block_is_refused() {
    let mut encoded = Encoder::<3>::encode(&[], 0, 0).unwrap();
    assert_eq!(encoded.len(), 71);
    // The header ends one bit into byte 70. A gray block follows: 101, two bits.
    encoded[70] |= 0b0101_0000;
    assert_eq!(decode(encoded), Err(DecodeError::UnknownPrefix));
}

#[test]
fn palette_entry_of_another_kind_is_refused() {
    let mut encoded = Encoder::<3>::encode(&[], 0, 0).unwrap();
    // The first palette entry begins at bit 65: make its prefix 1111.
    assert_eq!(encoded[8] & 0b0111_1000, 0b0111_0000);
    encoded[8] |= 0b0000_1000;
    assert_eq!(decode(encoded), Err(DecodeError::UnknownPrefix));
}

#[test]
fn too_few_pixels_is_a_dimension_mismatch() {
    let mut encoded = Encoder::<3>::encode(&[0; 6], 2, 1).unwrap();
    // Make the height 2.
    let at = encoded.len();
    assert_eq!(at, 72);
    encoded[8] ^= 0b1000_0000;
    encoded[7] ^= 0b0000_0001;
    assert_eq!(decode(encoded), Err(DecodeError::DimensionMismatch));
}

#[test]
fn too_many_pixels_is_a_dimension_mismatch() {
    let mut encoded = Encoder::<3>::encode(&[0; 6], 2, 1).unwrap();
    // Make the width 0.
    encoded[4] ^= 0b0000_0001;
    assert_eq!(decode(encoded), Err(DecodeError::DimensionMismatch));
}

#[test]
fn palette_index_beyond_the_palette() {
    let encoded = Encoder::<4>::encode(&[9; 8], 2, 1).unwrap();
    let mut reader = BufferDecoder::new(encoded);
    let header = Header::<4>::from_buffer(&mut reader).unwrap();
    assert_eq!(header.width, 2);
    assert_eq!(header.height, 1);
    assert_eq!(header.palette.len(), 16);
    assert!(header.color(15).is_ok());
    assert_eq!(header.color(16).err(), Some(DecodeError::PaletteIndex));
}

#[test]
fn alpha_flag_selects_the_channels() {
    let raw = [1u8, 2, 3, 4, 5, 6, 7, 8, 1, 2, 3, 4];
    let rgba = Encoder::<4>::encode(&raw, 3, 1).unwrap();
    let rgb = Encoder::<3>::encode(&raw, 2, 2).unwrap();
    assert_eq!(decode(rgba), Ok((raw.to_vec(), 3, 1)));
    assert_eq!(decode(rgb), Ok((raw.to_vec(), 2, 2)));
}
