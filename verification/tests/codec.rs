use boi::decoder::{decode, Decoder};
use boi::encoder::Encoder;
use boi::error::EncodeError;

/// Packs a string of `0` and `1` into bytes, the last byte filled up with zeros.
fn pack(bits: &str) -> Vec<u8> {
    let mut bytes = Vec::new();
    let mut current = 0u8;
    let mut used = 0;
    for ch in bits.chars() {
        if ch != '0' && ch != '1' {
            continue;
        }
        current = (current << 1) | (ch == '1') as u8;
        used += 1;
        if used == 8 {
            bytes.push(current);
            current = 0;
            used = 0;
        }
    }
    if used > 0 {
        bytes.push(current << (8 - used));
    }
    bytes
}

/// The `width` low bits of the two's complement of `value`.
fn field(value: i64, width: usize) -> String {
    let mut out = String::new();
    for i in (0..width).rev() {
        out.push(if (value >> i) & 1 == 1 { '1' } else { '0' });
    }
    out
}

/// The header of a stream whose palette entries are given.
fn header(channels: usize, width: u32, height: u32, palette: &[Vec<i16>]) -> String {
    let mut out = String::new();
    out.push(if channels == 3 { '0' } else { '1' });
    out.push_str(&field(width as i64, 32));
    out.push_str(&field(height as i64, 32));
    for i in 0..16 {
        let entry = if i < palette.len() {
            palette[i].clone()
        } else if !palette.is_empty() {
            palette[palette.len() - 1].clone()
        } else {
            vec![0; channels]
        };
        out.push_str("1110");
        for ch in entry {
            out.push_str(&field(ch as i64, 9));
        }
    }
    out
}

#[test]
fn solid_red_two_pixels() {
    let raw = [255u8, 0, 0, 255, 0, 0];
    let encoded = Encoder::<3>::encode(&raw, 2, 1).unwrap();
    // The first delta is (-255, 0, 0): a long pixel. The second delta is zero, which is
    // not what the first pixel left in its slot, but what slot 0 holds from the start.
    let mut expected = header(3, 2, 1, &[]);
    expected.push_str("1110");
    expected.push_str(&field(-255, 9));
    expected.push_str(&field(0, 9));
    expected.push_str(&field(0, 9));
    expected.push_str("1111");
    expected.push_str(&field(0, 6));
    assert_eq!(encoded, pack(&expected));
    assert_eq!(decode(encoded), Ok((raw.to_vec(), 2, 1)));
}

#[test]
fn single_black_pixel() {
    let raw = [0u8, 0, 0];
    let encoded = Encoder::<3>::encode(&raw, 1, 1).unwrap();
    // The zero delta is what slot 0 holds from the start: a run of one.
    let mut expected = header(3, 1, 1, &[]);
    expected.push_str("100");
    expected.push_str(&field(0, 6));
    assert_eq!(encoded, pack(&expected));
    assert_eq!(encoded.len(), 72);
    assert_eq!(decode(encoded), Ok((raw.to_vec(), 1, 1)));
}

#[test]
fn header_framing_of_a_small_image() {
    let raw = [7u8; 4 * 3 * 5];
    let encoded = Encoder::<4>::encode(&raw, 3, 5).unwrap();
    assert_eq!(encoded[0] >> 7, 1);
    let expected = pack(&header(4, 3, 5, &[]));
    assert_eq!(&encoded[..8], &expected[..8]);
    let rgb = Encoder::<3>::encode(&raw, 4, 5).unwrap();
    assert_eq!(rgb[0] >> 7, 0);
    assert_eq!(&rgb[..8], &pack(&header(3, 4, 5, &[]))[..8]);
}

/// An image of `pairs` pairs of pixels: (10, 20, 30), then black.
fn alternating(pairs: usize) -> Vec<u8> {
    let mut raw = Vec::new();
    for _ in 0..pairs {
        raw.extend_from_slice(&[10, 20, 30, 0, 0, 0]);
    }
    raw
}

#[test]
fn palette_hit() {
    // 200 sampled windows, each with the delta (10, 20, 30).
    let raw = alternating(10_000);
    let (logger, encoded) = Encoder::<3>::encode_with_logger(&raw, 200, 100).unwrap();
    // -A once as a medium pixel, then A by the palette and -A by its slot, in turn.
    assert_eq!(logger.medium, 1);
    assert_eq!(logger.palette, 10_000);
    assert_eq!(logger.offset, 9_999);
    assert_eq!(logger.short + logger.long + logger.repeating + logger.gray, 0);
    let mut expected = header(3, 200, 100, &[vec![10, 20, 30]]);
    expected.push_str("110");
    expected.push_str(&field(-10, 6));
    expected.push_str(&field(-20, 6));
    expected.push_str(&field(-30, 6));
    for i in 0..19_999 {
        if i % 2 == 0 {
            expected.push_str("01");
            expected.push_str(&field(0, 4));
        } else {
            expected.push_str("1111");
            expected.push_str(&field(44, 6));
        }
    }
    assert_eq!(encoded, pack(&expected));
    assert_eq!(decode(encoded), Ok((raw, 200, 100)));
}

#[test]
fn offset_hit() {
    // Four pixels: the deltas are -A, A, -A, A. The palette holds A alone, so the
    // second -A is found in its slot.
    let raw = alternating(2);
    let encoded = Encoder::<3>::encode(&raw, 4, 1).unwrap();
    let mut expected = header(3, 4, 1, &[vec![10, 20, 30]]);
    expected.push_str("110");
    expected.push_str(&field(-10, 6));
    expected.push_str(&field(-20, 6));
    expected.push_str(&field(-30, 6));
    expected.push_str("01");
    expected.push_str(&field(0, 4));
    expected.push_str("1111");
    expected.push_str(&field(44, 6));
    expected.push_str("01");
    expected.push_str(&field(0, 4));
    assert_eq!(encoded, pack(&expected));
    assert_eq!(decode(encoded), Ok((raw, 4, 1)));
}

#[test]
fn max_run() {
    // 65 pixels with the same delta: a run of 64, and a run of one.
    let raw = vec![0u8; 65 * 3];
    let (logger, encoded) = Encoder::<3>::encode_with_logger(&raw, 65, 1).unwrap();
    let mut expected = header(3, 65, 1, &[]);
    expected.push_str("100");
    expected.push_str(&field(63, 6));
    expected.push_str("100");
    expected.push_str(&field(0, 6));
    assert_eq!(encoded, pack(&expected));
    assert_eq!(logger.repeating, 2);
    assert_eq!(decode(encoded), Ok((raw, 65, 1)));
}

#[test]
fn run_of_exactly_64() {
    let raw = vec![0u8; 64 * 4];
    let encoded = Encoder::<4>::encode(&raw, 8, 8).unwrap();
    let mut expected = header(4, 8, 8, &[]);
    expected.push_str("100");
    expected.push_str(&field(63, 6));
    assert_eq!(encoded, pack(&expected));
    assert_eq!(decode(encoded), Ok((raw, 8, 8)));
}

#[test]
fn constant_delta_runs() {
    // A gradient: every pixel is the one before plus (1, 0, 1), so every delta is
    // (-1, 0, -1). 130 pixels: one block for the first, then runs of 64, 64 and 1.
    let mut raw = Vec::new();
    for k in 1..=130u8 {
        raw.extend_from_slice(&[k, 0, k]);
    }
    let (logger, encoded) = Encoder::<3>::encode_with_logger(&raw, 130, 1).unwrap();
    assert_eq!(logger.repeating, 3);
    assert_eq!(logger.palette, 1);
    assert_eq!(logger.total(), Some(4));
    let mut expected = header(3, 130, 1, &[vec![-1, 0, -1]]);
    expected.push_str("01");
    expected.push_str(&field(0, 4));
    expected.push_str("100");
    expected.push_str(&field(63, 6));
    expected.push_str("100");
    expected.push_str(&field(63, 6));
    expected.push_str("100");
    expected.push_str(&field(0, 6));
    assert_eq!(encoded, pack(&expected));
    assert_eq!(decode(encoded), Ok((raw, 130, 1)));
}

#[test]
fn constant_colour_image() {
    // Red everywhere: the deltas are (-255, 0, 0) and then zeros. The first zero is
    // found in slot 0, the others are a run.
    let mut raw = Vec::new();
    for _ in 0..10 {
        raw.extend_from_slice(&[255, 0, 0]);
    }
    let (logger, encoded) = Encoder::<3>::encode_with_logger(&raw, 5, 2).unwrap();
    assert_eq!(logger.long, 1);
    assert_eq!(logger.offset, 1);
    assert_eq!(logger.repeating, 1);
    let mut expected = header(3, 5, 2, &[]);
    expected.push_str("1110");
    expected.push_str(&field(-255, 9));
    expected.push_str(&field(0, 9));
    expected.push_str(&field(0, 9));
    expected.push_str("1111");
    expected.push_str(&field(0, 6));
    expected.push_str("100");
    expected.push_str(&field(7, 6));
    assert_eq!(encoded, pack(&expected));
    assert_eq!(decode(encoded), Ok((raw, 5, 2)));
}

#[test]
fn decodes_a_stream_made_by_hand() {
    // A palette of two entries, and one block of every kind but the reserved one.
    let mut stream = header(3, 71, 1, &[vec![100, 0, -100], vec![1, 2, 3]]);
    stream.push_str("00"); // short (1, -1, 0): slot (3 - 5) mod 64 = 62
    stream.push_str(&field(1, 4));
    stream.push_str(&field(-1, 4));
    stream.push_str(&field(0, 4));
    stream.push_str("110"); // medium (-32, 31, 9)
    stream.push_str(&field(-32, 6));
    stream.push_str(&field(31, 6));
    stream.push_str(&field(9, 6));
    stream.push_str("1110"); // long (255, -256, 0)
    stream.push_str(&field(255, 9));
    stream.push_str(&field(-256, 9));
    stream.push_str(&field(0, 9));
    stream.push_str("01"); // palette entry 1: (1, 2, 3)
    stream.push_str(&field(1, 4));
    stream.push_str("01"); // palette entry 15: as entry 1
    stream.push_str(&field(15, 4));
    stream.push_str("1111"); // slot 62: (1, -1, 0)
    stream.push_str(&field(62, 6));
    stream.push_str("100"); // a run of 64: (1, -1, 0) again
    stream.push_str(&field(63, 6));
    stream.push_str("1111"); // slot 1, still zero
    stream.push_str(&field(1, 6));
    let deltas: Vec<[i16; 3]> = {
        let mut d = vec![
            [1, -1, 0],
            [-32, 31, 9],
            [255, -256, 0],
            [1, 2, 3],
            [1, 2, 3],
            [1, -1, 0],
        ];
        for _ in 0..64 {
            d.push([1, -1, 0]);
        }
        d.push([0, 0, 0]);
        d
    };
    let mut expected = Vec::new();
    let mut pixel = [0u8; 3];
    for d in deltas {
        for i in 0..3 {
            pixel[i] = (pixel[i] as i16 - d[i]) as u8;
        }
        expected.extend_from_slice(&pixel);
    }
    assert_eq!(expected.len(), 71 * 3);
    assert_eq!(decode(pack(&stream)), Ok((expected.clone(), 71, 1)));
    assert_eq!(Decoder::<3>::decode(pack(&stream)), Ok((expected, 71, 1)));
}

/// A small generator of bytes that depends on nothing but its seed.
fn noise(seed: u64, len: usize) -> Vec<u8> {
    let mut state = seed;
    let mut out = Vec::with_capacity(len);
    for _ in 0..len {
        state = state
            .wrapping_mul(6364136223846793005)
            .wrapping_add(1442695040888963407);
        out.push((state >> 33) as u8);
    }
    out
}

#[test]
fn round_trip_random_rgba() {
    for seed in 0..20u64 {
        let raw = noise(seed, 16 * 16 * 4);
        let encoded = Encoder::<4>::encode(&raw, 16, 16).unwrap();
        assert_eq!(encoded[0] & 0x80, 0x80);
        assert_eq!(decode(encoded.clone()), Ok((raw.clone(), 16, 16)));
        assert_eq!(Decoder::<4>::decode(encoded), Ok((raw, 16, 16)));
    }
}

#[test]
fn round_trip_random_rgb() {
    for seed in 100..120u64 {
        let raw = noise(seed, 16 * 16 * 3);
        let encoded = Encoder::<3>::encode(&raw, 16, 16).unwrap();
        assert_eq!(decode(encoded), Ok((raw, 16, 16)));
    }
}

#[test]
fn round_trip_smooth_images() {
    // Small steps between pixels: short and medium blocks, runs and slots.
    for seed in 0..10u64 {
        let steps = noise(seed, 64 * 64 * 3);
        let mut raw = Vec::new();
        let mut pixel = [128u8; 3];
        for chunk in steps.chunks(3) {
            for i in 0..3 {
                let step = (chunk[i] % 5) as i16 - 2;
                pixel[i] = (pixel[i] as i16 + step) as u8;
            }
            raw.extend_from_slice(&pixel);
        }
        let (logger, encoded) = Encoder::<3>::encode_with_logger(&raw, 64, 64).unwrap();
        assert!(logger.short > 0);
        assert_eq!(logger.gray, 0);
        assert!(encoded.len() < raw.len());
        assert_eq!(decode(encoded), Ok((raw, 64, 64)));
    }
}

#[test]
fn round_trip_large_image_with_palette() {
    let mut raw = Vec::new();
    let colours = [[200u8, 10, 40, 255], [13, 77, 1, 0], [0, 0, 0, 255], [90, 90, 91, 7]];
    let picks = noise(7, 300 * 20);
    for p in picks {
        raw.extend_from_slice(&colours[(p % 4) as usize]);
    }
    let (logger, encoded) = Encoder::<4>::encode_with_logger(&raw, 300, 20).unwrap();
    assert!(logger.palette > 0);
    assert_eq!(decode(encoded), Ok((raw, 300, 20)));
}

#[test]
fn empty_image() {
    let encoded = Encoder::<3>::encode(&[], 0, 0).unwrap();
    assert_eq!(encoded, pack(&header(3, 0, 0, &[])));
    assert_eq!(decode(encoded), Ok((vec![], 0, 0)));
    let wide = Encoder::<4>::encode(&[], 9, 0).unwrap();
    assert_eq!(decode(wide), Ok((vec![], 9, 0)));
}

#[test]
fn encoder_rejects_wrong_length() {
    assert_eq!(
        Encoder::<3>::encode(&[1, 2, 3, 4], 1, 1),
        Err(EncodeError::LengthMismatch)
    );
    assert_eq!(
        Encoder::<4>::encode(&[1, 2, 3], 1, 1),
        Err(EncodeError::LengthMismatch)
    );
    assert_eq!(
        Encoder::<3>::encode(&[], 1, 1),
        Err(EncodeError::LengthMismatch)
    );
    assert!(Encoder::<3>::encode_with_logger(&[0; 5], 2, 1).is_err());
}

#[test]
fn encoder_rejects_dimensions_beyond_32_bits() {
    if usize::BITS > 32 {
        let big = (u32::MAX as u64 + 1) as usize;
        assert_eq!(
            Encoder::<3>::encode(&[], big, 0),
            Err(EncodeError::DimensionsOverflow)
        );
        assert_eq!(
            Encoder::<4>::encode(&[], 0, big),
            Err(EncodeError::DimensionsOverflow)
        );
    }
    let most = u32::MAX as usize;
    assert_eq!(Encoder::<3>::encode(&[], most, 0).map(|b| b.len()), Ok(71));
}
