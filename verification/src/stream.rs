//! The stream as a sequence of blocks: what each block is made of, and what a header is.
use crate::bits::bits_of;
use crate::blocks::{channels_bits, fits, pixel_bits, pixel_of_bits, pixel_typ, Typ};
use crate::buffer::{block_at, read};
use crate::error::DecodeError;
use crate::img::{backward, forward, zero_pixel};
use vstd::prelude::*;

verus! {

/// A block, by what it says.
pub enum Token {
    /// A pixel in four bits per channel.
    Short(Seq<i16>),
    /// A pixel in six bits per channel.
    Medium(Seq<i16>),
    /// A pixel in nine bits per channel.
    Long(Seq<i16>),
    /// The palette entry with this index.
    Palette(nat),
    /// A run of this many pixels.
    Repeat(nat),
    /// The reserved gray block with this payload.
    Gray(nat),
    /// The delta pixel in this slot of the offset table.
    Offset(nat),
}

/// The kind of a block.
pub open spec fn typ_of<const CHANNELS: usize>(token: Token) -> Typ<CHANNELS> {
    match token {
        Token::Short(_) => Typ::Short,
        Token::Medium(_) => Typ::Medium,
        Token::Long(_) => Typ::Long,
        Token::Palette(_) => Typ::Color,
        Token::Repeat(_) => Typ::Repeating,
        Token::Gray(_) => Typ::Gray,
        Token::Offset(_) => Typ::Offset,
    }
}

/// The payload of a block. A run is stored as its length minus one.
pub open spec fn payload_of(token: Token) -> Seq<bool> {
    match token {
        Token::Short(delta) => channels_bits(delta, 4),
        Token::Medium(delta) => channels_bits(delta, 6),
        Token::Long(delta) => channels_bits(delta, 9),
        Token::Palette(index) => bits_of(index as u64, 4),
        Token::Repeat(length) => bits_of((length - 1) as u64, 6),
        Token::Gray(value) => bits_of(value as u64, 2),
        Token::Offset(slot) => bits_of(slot as u64, 6),
    }
}

/// The bits of a block: prefix code, then payload.
pub open spec fn token_bits<const CHANNELS: usize>(token: Token) -> Seq<bool> {
    typ_of::<CHANNELS>(token).prefix() + payload_of(token)
}

/// The bits of a sequence of blocks.
pub open spec fn tokens_bits<const CHANNELS: usize>(tokens: Seq<Token>) -> Seq<bool>
    decreases tokens.len(),
{
    if tokens.len() == 0 {
        Seq::empty()
    } else {
        tokens_bits::<CHANNELS>(tokens.drop_last()) + token_bits::<CHANNELS>(tokens.last())
    }
}

/// A block that a stream of `CHANNELS` channels can hold: its pixel has that many
/// channels, each within the width of the block, and its number fits its payload.
pub open spec fn token_wf<const CHANNELS: usize>(token: Token) -> bool {
    match token {
        Token::Short(delta) => delta.len() == CHANNELS && fits(delta, -8, 7),
        Token::Medium(delta) => delta.len() == CHANNELS && fits(delta, -32, 31),
        Token::Long(delta) => delta.len() == CHANNELS && fits(delta, -256, 255),
        Token::Palette(index) => index < 16,
        Token::Repeat(length) => 1 <= length <= 64,
        Token::Gray(value) => value < 4,
        Token::Offset(slot) => slot < 64,
    }
}

/// The block that a prefix code and a payload stand for.
pub open spec fn token_of<const CHANNELS: usize>(code: nat, value: nat) -> Token {
    let c = CHANNELS as nat;
    match Typ::<CHANNELS>::of_code(code as u64) {
        Some(Typ::Short) => Token::Short(pixel_of_bits(bits_of(value as u64, 4 * c), 4, c)),
        Some(Typ::Medium) => Token::Medium(pixel_of_bits(bits_of(value as u64, 6 * c), 6, c)),
        Some(Typ::Long) => Token::Long(pixel_of_bits(bits_of(value as u64, 9 * c), 9, c)),
        Some(Typ::Color) => Token::Palette(value),
        Some(Typ::Repeating) => Token::Repeat(value + 1),
        Some(Typ::Offset) => Token::Offset(value),
        _ => Token::Gray(value),
    }
}

/// The pixel block of the smallest kind that holds the delta.
pub open spec fn pixel_token<const CHANNELS: usize>(delta: Seq<i16>) -> Token {
    match pixel_typ::<CHANNELS>(delta) {
        Typ::Short => Token::Short(delta),
        Typ::Medium => Token::Medium(delta),
        _ => Token::Long(delta),
    }
}

/// Pixel `k` of an image of `c` channels, as bytes.
pub open spec fn pixel_at(raw: Seq<u8>, c: nat, k: int) -> Seq<u8> {
    raw.subrange(k * c, k * c + c)
}

/// The pixel before pixel `k`; before the first, the pixel whose bytes are zero.
pub open spec fn pixel_before(raw: Seq<u8>, c: nat, k: int) -> Seq<u8> {
    if k == 0 {
        Seq::new(c, |i: int| 0u8)
    } else {
        pixel_at(raw, c, k - 1)
    }
}

/// The delta pixels of an image: for each pixel, the one before it minus itself.
pub open spec fn deltas_of(raw: Seq<u8>, c: nat) -> Seq<Seq<i16>> {
    Seq::new(
        if c == 0 {
            0
        } else {
            raw.len() / c
        },
        |k: int| forward(pixel_before(raw, c, k), pixel_at(raw, c, k), c),
    )
}

/// The image that a sequence of delta pixels leads to from the zero pixel.
pub open spec fn undelta(deltas: Seq<Seq<i16>>, c: nat) -> Seq<u8>
    decreases deltas.len(),
{
    if deltas.len() == 0 {
        Seq::empty()
    } else {
        let before = undelta(deltas.drop_last(), c);
        let previous = if deltas.len() == 1 {
            Seq::new(c, |i: int| 0u8)
        } else {
            before.subrange(before.len() - c, before.len() as int)
        };
        before + backward(previous, deltas.last())
    }
}

/// The sixteen entries that the header holds for a palette: the palette itself, filled
/// up with copies of its last entry, or with zero pixels if it is empty.
pub open spec fn padded_palette(palette: Seq<Seq<i16>>, c: nat) -> Seq<Seq<i16>> {
    Seq::new(
        16,
        |i: int|
            if i < palette.len() {
                palette[i]
            } else if palette.len() > 0 {
                palette.last()
            } else {
                zero_pixel(c)
            },
    )
}

/// The bits of palette entries: each a long pixel block.
pub open spec fn palette_bits<const CHANNELS: usize>(entries: Seq<Seq<i16>>) -> Seq<bool>
    decreases entries.len(),
{
    if entries.len() == 0 {
        Seq::empty()
    } else {
        palette_bits::<CHANNELS>(entries.drop_last()) + pixel_bits(
            entries.last(),
            Typ::<CHANNELS>::Long,
        )
    }
}

/// The alpha flag: 0 for three channels, 1 for four.
pub open spec fn alpha_flag<const CHANNELS: usize>() -> u64 {
    if CHANNELS == 3 {
        0
    } else {
        1
    }
}

/// The bits of a header: alpha flag, width, height, sixteen palette entries.
pub open spec fn header_bits<const CHANNELS: usize>(
    width: u32,
    height: u32,
    palette: Seq<Seq<i16>>,
) -> Seq<bool> {
    bits_of(alpha_flag::<CHANNELS>(), 1) + bits_of(width as u64, 32) + bits_of(height as u64, 32)
        + palette_bits::<CHANNELS>(padded_palette(palette, CHANNELS as nat))
}

/// The first `count` palette entries of a header, read from `pos` on, and the position
/// after them. Each is a long pixel block.
pub open spec fn parse_palette<const CHANNELS: usize>(
    bits: Seq<bool>,
    pos: nat,
    count: nat,
) -> Result<(Seq<Seq<i16>>, nat), DecodeError>
    decreases count,
{
    if count == 0 {
        Ok((Seq::empty(), pos))
    } else {
        match parse_palette::<CHANNELS>(bits, pos, (count - 1) as nat) {
            Err(e) => Err(e),
            Ok((entries, at)) => match block_at::<CHANNELS>(bits, at) {
                None => Err(DecodeError::Truncated),
                Some((code, value, after)) => if code != 0b1110 {
                    Err(DecodeError::UnknownPrefix)
                } else {
                    Ok(
                        (
                            entries.push(
                                pixel_of_bits(
                                    bits_of(value as u64, 9 * CHANNELS as nat),
                                    9,
                                    CHANNELS as nat,
                                ),
                            ),
                            after,
                        ),
                    )
                },
            },
        }
    }
}

/// What the header at `start` says: width, height, the sixteen palette entries, and
/// the position of the body.
pub open spec fn parse_header<const CHANNELS: usize>(bits: Seq<bool>, start: nat) -> Result<
    (u32, u32, Seq<Seq<i16>>, nat),
    DecodeError,
> {
    match (read(bits, start, 1), read(bits, start + 1, 32), read(bits, start + 33, 32)) {
        (Some(_), Some(width), Some(height)) => match parse_palette::<CHANNELS>(
            bits,
            start + 65,
            16,
        ) {
            Err(e) => Err(e),
            Ok((palette, pos)) => Ok((width as u32, height as u32, palette, pos)),
        },
        _ => Err(DecodeError::Truncated),
    }
}

/// Once an entry cannot be read, no later one can.
pub proof fn lemma_parse_palette_fails<const CHANNELS: usize>(
    bits: Seq<bool>,
    pos: nat,
    count: nat,
    more: nat,
)
    requires
        count <= more,
    ensures
        parse_palette::<CHANNELS>(bits, pos, count) matches Err(e) ==> parse_palette::<CHANNELS>(
            bits,
            pos,
            more,
        ) == Err::<(Seq<Seq<i16>>, nat), DecodeError>(e),
    decreases more,
{
    if count < more {
        lemma_parse_palette_fails::<CHANNELS>(bits, pos, count, (more - 1) as nat);
    }
}

} // verus!
