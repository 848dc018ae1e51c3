use boi::blocks::Block;
use boi::buffer::Buffer;
use boi::img::{Header, Image, Pixel};
use boi::log::Logger;
use boi::palette::{ImagePalette, Palette};

#[test]
fn zeros_and_equality() {
    assert_eq!(Pixel::<3>::zeros(), Pixel([0, 0, 0]));
    assert_eq!(Pixel::<4>::zeros().as_vec(), vec![0, 0, 0, 0]);
    assert_ne!(Pixel::<3>([0, 0, 1]), Pixel::<3>::zeros());
    assert_eq!(Pixel::<3>([5, -5, 9]).as_vec(), vec![5, -5, 9]);
}

#[test]
fn forward_is_previous_minus_current() {
    let pixel = Pixel::<3>::compute_forward(&[0, 0, 0], &[255, 0, 1]);
    assert_eq!(pixel, Pixel([-255, 0, -1]));
    let pixel = Pixel::<4>::compute_forward(&[255, 10, 0, 7], &[0, 20, 0, 7]);
    assert_eq!(pixel, Pixel([255, -10, 0, 0]));
}

#[test]
fn backward_undoes_forward() {
    for p in [0u8, 1, 77, 128, 254, 255] {
        for q in [0u8, 1, 100, 127, 200, 255] {
            let previous = [p, q, p];
            let current = [q, p, q];
            let delta = Pixel::<3>::compute_forward(&previous, &current);
            assert_eq!(Pixel::compute_backward(&previous, &delta), current.to_vec());
        }
    }
}

#[test]
fn backward_wraps_modulo_256() {
    assert_eq!(
        Pixel::<3>::compute_backward(&[0, 255, 10], &Pixel([1, -1, -256])),
        vec![255, 0, 10]
    );
    assert_eq!(
        Pixel::<3>::compute_backward(&[255, 0, 0], &Pixel([-255, 0, 0])),
        vec![254, 0, 0]
    );
}

#[test]
fn hash_values() {
    assert_eq!(Pixel::<3>::zeros().hash(), 0);
    assert_eq!(Pixel::<3>([1, 1, 1]).hash(), 15);
    assert_eq!(Pixel::<4>([1, 1, 1, 1]).hash(), 26);
    assert_eq!(Pixel::<3>([-255, 0, 0]).hash(), 3);
    assert_eq!(Pixel::<3>([10, 20, 30]).hash(), 20);
    assert_eq!(Pixel::<3>([-10, -20, -30]).hash(), 44);
    assert_eq!(Pixel::<4>([i16::MIN, i16::MIN, i16::MIN, i16::MIN]).hash(), 0);
    assert_eq!(Pixel::<4>([i16::MAX, i16::MAX, i16::MAX, i16::MAX]).hash(), 38);
    assert_eq!(Pixel::<4>([0, 0, 0, -1]).hash(), 53);
}

#[test]
fn histogram_counts_in_order_of_first_occurrence() {
    let mut histogram = ImagePalette::<3>::new();
    histogram.increment_color(Pixel([1, 2, 3]));
    histogram.increment_color(Pixel([4, 5, 6]));
    histogram.increment_color(Pixel([1, 2, 3]));
    histogram.increment_color(Pixel([7, 8, 9]));
    histogram.increment_color(Pixel([4, 5, 6]));
    histogram.increment_color(Pixel([1, 2, 3]));
    assert_eq!(
        histogram.0,
        vec![(Pixel([1, 2, 3]), 3), (Pixel([4, 5, 6]), 2), (Pixel([7, 8, 9]), 1)]
    );
}

#[test]
fn sampling_takes_one_window_every_hundred_pixels() {
    // 250 pixels of three channels: windows begin at pixels 0, 100 and 200.
    let mut raw = vec![0u8; 250 * 3];
    raw[0] = 50; // window 0: (50, 0, 0) minus (0, 0, 0)
    raw[300] = 9; // window 1: (9, 0, 0) minus (0, 0, 7)
    raw[305] = 7;
    raw[600] = 50; // window 2: as window 0
    raw[150] = 99; // not in a window
    let histogram = ImagePalette::<3>::from(&raw);
    assert_eq!(
        histogram.0,
        vec![(Pixel([50, 0, 0]), 2), (Pixel([9, 0, -7]), 1)]
    );
}

#[test]
fn sampling_needs_a_whole_window() {
    assert_eq!(ImagePalette::<3>::from(&[]).0, vec![]);
    assert_eq!(ImagePalette::<3>::from(&[9, 0, 0, 0, 0]).0, vec![]);
    assert_eq!(
        ImagePalette::<3>::from(&[9, 0, 0, 0, 0, 0]).0,
        vec![(Pixel([9, 0, 0]), 1)]
    );
    // The second window would begin at byte 400 and end at byte 408.
    let mut raw = vec![0u8; 407];
    raw[400] = 1;
    assert_eq!(ImagePalette::<4>::from(&raw).0, vec![]);
    raw.push(0);
    assert_eq!(
        ImagePalette::<4>::from(&raw).0,
        vec![(Pixel([1, 0, 0, 0]), 1)]
    );
}

#[test]
fn sampling_leaves_gray_out() {
    let raw = [5u8, 5, 5, 0, 0, 0];
    assert_eq!(ImagePalette::<3>::from(&raw).0, vec![]);
    let raw = [9u8, 9, 9, 0, 0, 0];
    assert_eq!(
        ImagePalette::<3>::from(&raw).0,
        vec![(Pixel([9, 9, 9]), 1)]
    );
}

#[test]
fn palette_is_sorted_by_count_then_by_first_occurrence() {
    let histogram = ImagePalette::<3>(vec![
        (Pixel([1, 0, 0]), 2),
        (Pixel([2, 0, 0]), 5),
        (Pixel([3, 0, 0]), 2),
        (Pixel([4, 0, 0]), 7),
        (Pixel([5, 0, 0]), 5),
    ]);
    let palette = Palette::from(histogram);
    assert_eq!(
        palette.0,
        vec![
            Pixel([4, 0, 0]),
            Pixel([2, 0, 0]),
            Pixel([5, 0, 0]),
            Pixel([1, 0, 0]),
            Pixel([3, 0, 0])
        ]
    );
    assert_eq!(palette.get(&Pixel([5, 0, 0])), Some(2));
    assert_eq!(palette.get(&Pixel([6, 0, 0])), None);
}

#[test]
fn palette_keeps_sixteen() {
    let mut entries = Vec::new();
    for i in 0..40i16 {
        entries.push((Pixel::<4>([i, 0, 0, 0]), (i as usize % 10) + 1));
    }
    let palette = Palette::from(ImagePalette(entries));
    assert_eq!(palette.0.len(), 16);
    let firsts: Vec<i16> = palette.0.iter().map(|p| p.0[0]).collect();
    assert_eq!(
        firsts,
        vec![9, 19, 29, 39, 8, 18, 28, 38, 7, 17, 27, 37, 6, 16, 26, 36]
    );
    assert_eq!(Palette::from(ImagePalette::<3>::new()).0.len(), 0);
}

#[test]
fn palette_get_returns_the_first_position() {
    let palette = Palette::<3>(vec![Pixel([1, 1, 1]), Pixel([2, 2, 2]), Pixel([1, 1, 1])]);
    assert_eq!(palette.get(&Pixel([1, 1, 1])), Some(0));
    assert_eq!(palette.get(&Pixel([2, 2, 2])), Some(1));
}

#[test]
fn image_holds_dimensions_and_palette() {
    let image = Image::<3>::new(&[9, 0, 0, 0, 0, 0], 2, 1);
    assert_eq!(image.width, 2);
    assert_eq!(image.height, 1);
    assert_eq!(image.palette.0, vec![Pixel([9, 0, 0])]);
}

#[test]
fn header_pads_the_palette() {
    let palette = Palette::<3>(vec![Pixel([1, 2, 3]), Pixel([-1, -2, -3])]);
    let header = Header::new(640, 480, &palette);
    assert_eq!(header.width, 640);
    assert_eq!(header.height, 480);
    assert!(header.palette.is_empty());
    assert_eq!(header.encoded_palette.len(), 16);
    assert_eq!(
        header.encoded_palette[0].value,
        0b1110_000000001_000000010_000000011
    );
    for block in &header.encoded_palette[1..] {
        assert_eq!(block.value, 0b1110_111111111_111111110_111111101);
        assert_eq!(block.bit_count, 31);
    }
    let empty = Header::new(1, 1, &Palette::<4>(vec![]));
    for block in &empty.encoded_palette {
        assert_eq!(block.value, 0b1110 << 36);
        assert_eq!(block.bit_count, 40);
    }
}

#[test]
fn buffer_from_header() {
    let palette = Palette::<3>(vec![Pixel([1, 2, 3])]);
    let buffer = Buffer::from_header(Header::new(0x01020304, 0x0a0b0c0d, &palette));
    assert_eq!(buffer.len(), 71);
    assert_eq!(buffer.offset, 1);
    assert_eq!(
        &buffer.bytes[..9],
        &[0x00, 0x81, 0x01, 0x82, 0x05, 0x05, 0x86, 0x06, 0xf0]
    );
    let custom = Header::<4> {
        width: 1,
        height: 1,
        encoded_palette: vec![Block::new(7, 0x7f)],
        palette: vec![],
    };
    let buffer = Buffer::from_header(custom);
    assert_eq!(buffer.len(), 9);
    assert_eq!(buffer.bytes[0], 0x80);
    assert_eq!(buffer.bytes[7], 0);
    assert_eq!(buffer.bytes[8], 0b1111_1111);
}

#[test]
fn logger_totals() {
    let mut logger = Logger::new();
    assert_eq!(logger.total(), Some(0));
    logger.short = 3;
    logger.gray = 4;
    logger.palette = 10;
    assert_eq!(logger.total(), Some(17));
    logger.long = usize::MAX;
    assert_eq!(logger.total(), None);
}
