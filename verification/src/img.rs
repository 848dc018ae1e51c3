//! The pixel model: delta pixels, their hash, and the image header.
use crate::blocks;
use crate::blocks::{blocks_bits, pixel_bits, Block, Typ};
use crate::buffer::{read, BufferDecoder};
use crate::error::DecodeError;
use crate::palette::{palette_of, ImagePalette, Palette};
use crate::stream::{padded_palette, palette_bits, parse_header, parse_palette};
use vstd::prelude::*;
use vstd::std_specs::cmp::PartialEqSpecImpl;

verus! {

/// The delta pixel whose `c` channels are all zero.
pub open spec fn zero_pixel(c: nat) -> Seq<i16> {
    Seq::new(c, |i: int| 0i16)
}

/// The forward transform on the first `c` channels: previous minus current.
pub open spec fn forward(previous: Seq<u8>, current: Seq<u8>, c: nat) -> Seq<i16> {
    Seq::new(c, |i: int| (previous[i] - current[i]) as i16)
}

/// The backward transform: previous minus delta, modulo 256.
pub open spec fn backward(previous: Seq<u8>, delta: Seq<i16>) -> Seq<u8> {
    Seq::new(delta.len(), |i: int| ((previous[i] - delta[i]) % 256) as u8)
}

/// Channel `i` of a delta pixel, zero past its last channel.
pub open spec fn channel(delta: Seq<i16>, i: int) -> int {
    if 0 <= i < delta.len() {
        delta[i] as int
    } else {
        0
    }
}

/// The slot of a delta pixel in the offset table.
pub open spec fn hash_of(delta: Seq<i16>) -> int {
    (3 * channel(delta, 0) + 5 * channel(delta, 1) + 7 * channel(delta, 2) + 11 * channel(
        delta,
        3,
    )) % 64
}

/// The offset table as delta pixels.
pub open spec fn table<const CHANNELS: usize>(offsets: Seq<Pixel<CHANNELS>>) -> Seq<Seq<i16>> {
    Seq::new(offsets.len(), |i: int| offsets[i]@)
}

/// The hash from the channels, lifted by a multiple of 64 so that it is not negative.
proof fn lemma_hash(delta: Seq<i16>, c0: int, c1: int, c2: int, c3: int)
    requires
        c0 == channel(delta, 0),
        c1 == channel(delta, 1),
        c2 == channel(delta, 2),
        c3 == channel(delta, 3),
    ensures
        (3 * c0 + 5 * c1 + 7 * c2 + 11 * c3 + 64 * 32768) % 64 == hash_of(delta),
        0 <= 3 * c0 + 5 * c1 + 7 * c2 + 11 * c3 + 64 * 32768 < 0x7fff_ffff,
{
    let sum = 3 * c0 + 5 * c1 + 7 * c2 + 11 * c3;
    assert((sum + 64 * 32768) % 64 == sum % 64) by {
        vstd::arithmetic::div_mod::lemma_mod_multiples_vanish(32768, sum, 64);
    }
}

/// A delta pixel: per channel, the previous byte minus the current byte.
#[derive(Clone, Copy, Debug, Hash)]
pub struct Pixel<const CHANNELS: usize>(pub [i16; CHANNELS]);

impl<const CHANNELS: usize> View for Pixel<CHANNELS> {
    type V = Seq<i16>;

    open spec fn view(&self) -> Seq<i16> {
        self.0@
    }
}

impl<const CHANNELS: usize> PartialEq for Pixel<CHANNELS> {
    fn eq(&self, other: &Self) -> (r: bool) {
        let mut i: usize = 0;
        while i < CHANNELS
            invariant
                i <= CHANNELS,
                forall|j: int| 0 <= j < i ==> self@[j] == other@[j],
            decreases CHANNELS - i,
        {
            if self.0[i] != other.0[i] {
                return false;
            }
            i += 1;
        }
        assert(self@ =~= other@);
        true
    }
}

impl<const CHANNELS: usize> PartialEqSpecImpl for Pixel<CHANNELS> {
    open spec fn obeys_eq_spec() -> bool {
        true
    }

    open spec fn eq_spec(&self, other: &Self) -> bool {
        self@ == other@
    }
}

impl<const CHANNELS: usize> Eq for Pixel<CHANNELS> {

}

impl<const CHANNELS: usize> Pixel<CHANNELS> {
    /// The pixel whose channels are all zero.
    pub fn zeros() -> (p: Self)
        ensures
            p@ == zero_pixel(CHANNELS as nat),
    {
        let p = Self([0i16;CHANNELS]);
        assert(p@ =~= zero_pixel(CHANNELS as nat));
        p
    }

    /// The delta between two pixels given as bytes.
    pub fn compute_forward(previous: &[u8], current: &[u8]) -> (p: Self)
        requires
            previous@.len() >= CHANNELS,
            current@.len() >= CHANNELS,
        ensures
            p@ == forward(previous@, current@, CHANNELS as nat),
    {
        let mut pixel = [0i16;CHANNELS];
        let mut idx: usize = 0;
        while idx < CHANNELS
            invariant
                idx <= CHANNELS,
                previous@.len() >= CHANNELS,
                current@.len() >= CHANNELS,
                forall|j: int| 0 <= j < idx ==> pixel@[j] == (previous@[j] - current@[j]) as i16,
            decreases CHANNELS - idx,
        {
            pixel[idx] = previous[idx] as i16 - current[idx] as i16;
            idx += 1;
        }
        let p = Self(pixel);
        assert(p@ =~= forward(previous@, current@, CHANNELS as nat));
        p
    }

    /// The pixel bytes that a delta leads to from the previous pixel.
    pub fn compute_backward(previous: &[u8], current: &Self) -> (bytes: Vec<u8>)
        requires
            previous@.len() >= CHANNELS,
        ensures
            bytes@ == backward(previous@, current@),
    {
        let mut pixel: Vec<u8> = Vec::new();
        let mut idx: usize = 0;
        while idx < CHANNELS
            invariant
                idx <= CHANNELS,
                previous@.len() >= CHANNELS,
                current@.len() == CHANNELS,
                pixel@.len() == idx,
                forall|j: int| 0 <= j < idx ==> pixel@[j] == ((previous@[j] - current@[j]) % 256) as u8,
            decreases CHANNELS - idx,
        {
            let byte = ((previous[idx] as i32 - current.0[idx] as i32 + 32768) % 256) as u8;
            pixel.push(byte);
            idx += 1;
        }
        assert(pixel@ =~= backward(previous@, current@));
        pixel
    }

    /// The slot of this pixel in the offset table, in `[0, 64)`.
    pub fn hash(&self) -> (h: usize)
        requires
            CHANNELS <= 4,
        ensures
            h == hash_of(self@),
            h < 64,
    {
        let c0: i32 = if CHANNELS > 0 {
            self.0[0] as i32
        } else {
            0
        };
        let c1: i32 = if CHANNELS > 1 {
            self.0[1] as i32
        } else {
            0
        };
        let c2: i32 = if CHANNELS > 2 {
            self.0[2] as i32
        } else {
            0
        };
        let c3: i32 = if CHANNELS > 3 {
            self.0[3] as i32
        } else {
            0
        };
        proof {
            lemma_hash(self@, c0 as int, c1 as int, c2 as int, c3 as int);
        }
        let sum: i32 = 3 * c0 + 5 * c1 + 7 * c2 + 11 * c3;
        let lifted: i32 = sum + 64 * 32768;
        (lifted % 64) as usize
    }

    /// The channels as a vector.
    pub fn as_vec(self) -> (v: Vec<i16>)
        ensures
            v@ == self@,
    {
        let mut v: Vec<i16> = Vec::new();
        let mut idx: usize = 0;
        while idx < CHANNELS
            invariant
                idx <= CHANNELS,
                v@.len() == idx,
                forall|j: int| 0 <= j < idx ==> v@[j] == self@[j],
            decreases CHANNELS - idx,
        {
            v.push(self.0[idx]);
            idx += 1;
        }
        assert(v@ =~= self@);
        v
    }
}

/// What the encoder needs to know of an image before it scans it.
pub struct Image<const CHANNELS: usize> {
    /// The width in pixels.
    pub width: usize,
    /// The height in pixels.
    pub height: usize,
    /// The palette of the image.
    pub palette: Palette<CHANNELS>,
}

impl<const CHANNELS: usize> Image<CHANNELS> {
    /// The dimensions as given, and the palette sampled from the bytes.
    pub fn new(raw: &[u8], width: usize, height: usize) -> (image: Self)
        requires
            CHANNELS == 3 || CHANNELS == 4,
        ensures
            image.width == width,
            image.height == height,
            image.palette@ == palette_of(raw@, CHANNELS as nat),
            image.palette@.len() <= 16,
    {
        let image_palette = ImagePalette::from(raw);
        let palette = Palette::from(image_palette);
        Self { width, height, palette }
    }
}

/// The header of a stream. An encoder fills `encoded_palette`, a decoder `palette`.
#[derive(Debug)]
pub struct Header<const CHANNELS: usize> {
    /// The width of the image.
    pub width: u32,
    /// The height of the image.
    pub height: u32,
    /// The sixteen palette entries as blocks, where the header was made to be written.
    pub encoded_palette: Vec<Block>,
    /// The sixteen palette entries, where the header was read.
    pub palette: Vec<Pixel<CHANNELS>>,
}

impl<const CHANNELS: usize> Header<CHANNELS> {
    /// The palette entries that were read.
    pub open spec fn colors(&self) -> Seq<Seq<i16>> {
        Seq::new(self.palette@.len(), |i: int| self.palette@[i]@)
    }

    /// The header to be written for an image: its dimensions and sixteen long pixel
    /// blocks, the palette filled up with copies of its last entry, or with zero pixels
    /// if it is empty.
    pub fn new(width: usize, height: usize, palette: &Palette<CHANNELS>) -> (header: Self)
        requires
            CHANNELS == 3 || CHANNELS == 4,
            width <= u32::MAX,
            height <= u32::MAX,
        ensures
            header.width == width,
            header.height == height,
            header.palette@.len() == 0,
            header.encoded_palette@.len() == 16,
            forall|i: int|
                0 <= i < 16 ==> (#[trigger] header.encoded_palette@[i])@ == pixel_bits(
                    padded_palette(palette@, CHANNELS as nat)[i],
                    Typ::<CHANNELS>::Long,
                ) && header.encoded_palette@[i].canonical() && header.encoded_palette@[i].bit_count
                    <= 40,
            blocks_bits(header.encoded_palette@) == palette_bits::<CHANNELS>(
                padded_palette(palette@, CHANNELS as nat),
            ),
    {
        let ghost padded = padded_palette(palette@, CHANNELS as nat);
        let n = palette.0.len();
        let mut encoded_palette: Vec<Block> = Vec::new();
        let mut idx: usize = 0;
        assert(padded.take(0) =~= Seq::<Seq<i16>>::empty());
        while idx < 16
            invariant
                CHANNELS == 3 || CHANNELS == 4,
                idx <= 16,
                n == palette.0@.len(),
                padded == padded_palette(palette@, CHANNELS as nat),
                encoded_palette@.len() == idx,
                forall|i: int|
                    0 <= i < idx ==> (#[trigger] encoded_palette@[i])@ == pixel_bits(
                        padded[i],
                        Typ::<CHANNELS>::Long,
                    ) && encoded_palette@[i].canonical() && encoded_palette@[i].bit_count <= 40,
                blocks_bits(encoded_palette@) == palette_bits::<CHANNELS>(padded.take(idx as int)),
            decreases 16 - idx,
        {
            let color = if idx < n {
                palette.0[idx]
            } else if n > 0 {
                palette.0[n - 1]
            } else {
                Pixel::zeros()
            };
            assert(color@ == padded[idx as int]);
            let block = blocks::Pixel::encode_as(&color, Typ::Long);
            proof {
                assert(padded.take(idx + 1).drop_last() =~= padded.take(idx as int));
                assert(encoded_palette@.push(block).drop_last() =~= encoded_palette@);
            }
            encoded_palette.push(block);
            idx += 1;
        }
        assert(padded.take(16) =~= padded);
        Self { width: width as u32, height: height as u32, encoded_palette, palette: Vec::new() }
    }

    /// The header at the cursor of a reader: alpha flag, width, height and sixteen
    /// palette entries, each a long pixel block. The cursor ends behind it.
    pub fn from_buffer(buffer: &mut BufferDecoder) -> (out: Result<Self, DecodeError>)
        requires
            CHANNELS == 3 || CHANNELS == 4,
            old(buffer).wf(),
        ensures
            final(buffer).wf(),
            final(buffer).bytes@ == old(buffer).bytes@,
            match parse_header::<CHANNELS>(old(buffer).bits(), old(buffer).pos()) {
                Ok((width, height, palette, pos)) => (out matches Ok(header) && header.width
                    == width && header.height == height && header.colors() == palette
                    && header.encoded_palette@.len() == 0 && final(buffer).pos() == pos
                    && palette.len() == 16),
                Err(e) => out == Err::<Self, DecodeError>(e),
            },
    {
        let ghost bits = buffer.bits();
        let ghost start = buffer.pos();
        let flag = buffer.next_n_bits(1);
        if flag.is_none() {
            return Err(DecodeError::Truncated);
        }
        let width = match buffer.next_n_bits(32) {
            None => {
                return Err(DecodeError::Truncated);
            },
            Some(width) => width,
        };
        let height = match buffer.next_n_bits(32) {
            None => {
                return Err(DecodeError::Truncated);
            },
            Some(height) => height,
        };
        proof {
            crate::bits::lemma_bits_value_bound(bits.subrange(start + 1 as int, start + 33 as int));
            crate::bits::lemma_bits_value_bound(bits.subrange(start + 33 as int, start + 65 as int));
            crate::bits::lemma_two_pow(32);
            assert(1u64 << 32 == 0x1_0000_0000) by (bit_vector);
        }
        let mut palette: Vec<Pixel<CHANNELS>> = Vec::new();
        let ghost mut entries: Seq<Seq<i16>> = Seq::empty();
        let mut idx: usize = 0;
        while idx < 16
            invariant
                CHANNELS == 3 || CHANNELS == 4,
                idx <= 16,
                buffer.wf(),
                buffer.bits() == bits,
                buffer.bytes@ == old(buffer).bytes@,
                bits == old(buffer).bits(),
                start == old(buffer).pos(),
                read(bits, start, 1).is_some(),
                read(bits, start + 1, 32).is_some(),
                read(bits, start + 33, 32).is_some(),
                palette@.len() == idx,
                entries.len() == idx,
                forall|i: int| 0 <= i < idx ==> #[trigger] entries[i] == palette@[i]@,
                parse_palette::<CHANNELS>(bits, start + 65, idx as nat) == Ok::<
                    (Seq<Seq<i16>>, nat),
                    DecodeError,
                >((entries, buffer.pos())),
            decreases 16 - idx,
        {
            proof {
                crate::stream::lemma_parse_palette_fails::<CHANNELS>(
                    bits,
                    start + 65,
                    (idx + 1) as nat,
                    16,
                );
            }
            match buffer.next_block::<CHANNELS>() {
                None => {
                    return Err(DecodeError::Truncated);
                },
                Some((code, value)) => {
                    if code != 0b1110 {
                        return Err(DecodeError::UnknownPrefix);
                    }
                    let pixel = blocks::Pixel::<CHANNELS>::decode(value, code);
                    palette.push(pixel);
                    proof {
                        entries = entries.push(pixel@);
                    }
                },
            }
            idx += 1;
        }
        let header = Self {
            width: width as u32,
            height: height as u32,
            encoded_palette: Vec::new(),
            palette,
        };
        assert(header.colors() =~= entries);
        Ok(header)
    }

    /// The palette entry with the given index.
    pub fn color(&self, index: usize) -> (out: Result<Pixel<CHANNELS>, DecodeError>)
        ensures
            index < self.palette@.len() ==> (out matches Ok(pixel) && pixel@ == self.colors()[
                index as int
            ]),
            index >= self.palette@.len() ==> out == Err::<Pixel<CHANNELS>, DecodeError>(
                DecodeError::PaletteIndex,
            ),
    {
        if index < self.palette.len() {
            Ok(self.palette[index])
        } else {
            Err(DecodeError::PaletteIndex)
        }
    }
}

} // verus!
