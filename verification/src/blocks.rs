//! The block format: prefix codes, payload widths and the layout of each kind.
use crate::bits::{
    bit, bits_of, bits_value, bytes_bits, lemma_bit_mask, lemma_bit_small, lemma_bits_concat,
    lemma_bits_mask, lemma_bits_shr, lemma_bits_suffix, lemma_bits_value_of, lemma_two_pow, low_mask,
    signed_value, two_pow, zeros,
};
use crate::img;
use crate::{U64_BITS, U8_BITS};
use vstd::prelude::*;

verus! {

/// The seven kinds of block.
#[derive(Clone, Copy, Debug, PartialEq, Eq)]
pub enum Typ<const CHANNELS: usize> {
    /// A pixel with four bits per channel, each in `[-8, 7]`.
    Short,
    /// A pixel with six bits per channel, each in `[-32, 31]`.
    Medium,
    /// A pixel with nine bits per channel, each in `[-256, 255]`.
    Long,
    /// A run: the previous delta pixel, once more for each pixel of the run.
    Repeating,
    /// An index into the palette.
    Color,
    /// A gray delta. Reserved: no encoder emits it and the decoder refuses it.
    Gray,
    /// A slot of the offset table.
    Offset,
}

impl<const CHANNELS: usize> Typ<CHANNELS> {
    /// The prefix code, as a number.
    pub open spec fn code_of(self) -> u64 {
        match self {
            Typ::Short => 0b00,
            Typ::Color => 0b01,
            Typ::Repeating => 0b100,
            Typ::Gray => 0b101,
            Typ::Medium => 0b110,
            Typ::Long => 0b1110,
            Typ::Offset => 0b1111,
        }
    }

    /// The number of bits of the prefix code.
    pub open spec fn code_len_of(self) -> nat {
        match self {
            Typ::Short | Typ::Color => 2,
            Typ::Repeating | Typ::Gray | Typ::Medium => 3,
            Typ::Long | Typ::Offset => 4,
        }
    }

    /// The number of payload bits per channel of a pixel block, zero for the other kinds.
    pub open spec fn channel_bits_of(self) -> nat {
        match self {
            Typ::Short => 4,
            Typ::Medium => 6,
            Typ::Long => 9,
            _ => 0,
        }
    }

    /// The number of payload bits.
    pub open spec fn payload_len_of(self) -> nat {
        match self {
            Typ::Short => 4 * CHANNELS as nat,
            Typ::Medium => 6 * CHANNELS as nat,
            Typ::Long => 9 * CHANNELS as nat,
            Typ::Repeating => 6,
            Typ::Color => 4,
            Typ::Gray => 2,
            Typ::Offset => 6,
        }
    }

    /// The prefix code, as bits in stream order.
    pub open spec fn prefix(self) -> Seq<bool> {
        bits_of(self.code_of(), self.code_len_of())
    }

    /// The kind that a prefix code stands for.
    pub open spec fn of_code(code: u64) -> Option<Self> {
        if code == 0b00 {
            Some(Typ::Short)
        } else if code == 0b01 {
            Some(Typ::Color)
        } else if code == 0b100 {
            Some(Typ::Repeating)
        } else if code == 0b101 {
            Some(Typ::Gray)
        } else if code == 0b110 {
            Some(Typ::Medium)
        } else if code == 0b1110 {
            Some(Typ::Long)
        } else if code == 0b1111 {
            Some(Typ::Offset)
        } else {
            None
        }
    }

    /// The prefix code, as a number.
    pub fn code(&self) -> (code: u64)
        ensures
            code == self.code_of(),
    {
        match self {
            Typ::Short => 0b00,
            Typ::Color => 0b01,
            Typ::Repeating => 0b100,
            Typ::Gray => 0b101,
            Typ::Medium => 0b110,
            Typ::Long => 0b1110,
            Typ::Offset => 0b1111,
        }
    }

    /// The number of bits of the prefix code.
    pub fn code_len(&self) -> (len: usize)
        ensures
            len == self.code_len_of(),
    {
        match self {
            Typ::Short | Typ::Color => 2,
            Typ::Repeating | Typ::Gray | Typ::Medium => 3,
            Typ::Long | Typ::Offset => 4,
        }
    }

    /// The number of payload bits.
    pub fn payload_len(&self) -> (len: usize)
        requires
            CHANNELS <= 4,
        ensures
            len == self.payload_len_of(),
            len <= 36,
    {
        match self {
            Typ::Short => 4 * CHANNELS,
            Typ::Medium => 6 * CHANNELS,
            Typ::Long => 9 * CHANNELS,
            Typ::Repeating => 6,
            Typ::Color => 4,
            Typ::Gray => 2,
            Typ::Offset => 6,
        }
    }

    /// The number of bits of a whole block: prefix code and payload.
    pub fn size(&self) -> (len: usize)
        requires
            CHANNELS <= 4,
        ensures
            len == self.code_len_of() + self.payload_len_of(),
            len <= 40,
    {
        self.code_len() + self.payload_len()
    }

    /// The kind that a prefix code stands for, if it is one of the seven.
    pub fn from_code(code: u64) -> (typ: Option<Self>)
        ensures
            typ == Self::of_code(code),
            typ matches Some(t) ==> t.code_of() == code,
    {
        if code == 0b00 {
            Some(Typ::Short)
        } else if code == 0b01 {
            Some(Typ::Color)
        } else if code == 0b100 {
            Some(Typ::Repeating)
        } else if code == 0b101 {
            Some(Typ::Gray)
        } else if code == 0b110 {
            Some(Typ::Medium)
        } else if code == 0b1110 {
            Some(Typ::Long)
        } else if code == 0b1111 {
            Some(Typ::Offset)
        } else {
            None
        }
    }
}

/// The word with the `n` low bits set.
pub fn low_bits(n: usize) -> (mask: u64)
    requires
        n < 64,
    ensures
        mask == low_mask(n as u64),
{
    proof {
        lemma_bit_mask(0, n as u64, 0);
    }
    (1u64 << n) - 1
}

/// A prefix-coded field together with its payload, ready for the bit buffer.
#[derive(Debug)]
pub struct Block {
    /// The bits, in the low end of a word.
    pub value: u64,
    /// The number of bits.
    pub bit_count: usize,
}

impl View for Block {
    type V = Seq<bool>;

    /// The bits of the block in stream order.
    open spec fn view(&self) -> Seq<bool> {
        bits_of(self.value, self.bit_count as nat)
    }
}

/// The bits of a sequence of blocks, one after the other.
pub open spec fn blocks_bits(blocks: Seq<Block>) -> Seq<bool>
    decreases blocks.len(),
{
    if blocks.len() == 0 {
        Seq::empty()
    } else {
        blocks_bits(blocks.drop_last()) + blocks.last()@
    }
}

/// The bits of the window: zero before the offset, the block from there, zero after it.
proof fn lemma_window_bit(v: u64, n: u64, off: u64, p: u64)
    by (bit_vector)
    requires
        off < 8,
        n <= 56,
        1 <= off + n,
        p < 64,
    ensures
        ({
            let w = (v & low_mask(n)) << ((64 - (off + n)) as u64);
            bit(w, (63 - p) as u64) == (off <= p && p < off + n && bit(v, (off + n - 1 - p) as u64))
        }),
{
}

/// A code that fits its length, joined with a value cut to its width, fits both.
proof fn lemma_joined_is_small(code: u64, code_len: u64, value: u64, bit_count: u64)
    by (bit_vector)
    requires
        bit_count + code_len < 64,
        code >> code_len == 0,
    ensures
        ((code << bit_count) | (value & low_mask(bit_count))) >> ((bit_count + code_len) as u64)
            == 0,
{
}

/// A bit of a byte of the window is that bit of the window.
proof fn lemma_window_byte(w: u64, k: u64, j: u64)
    by (bit_vector)
    requires
        k < 8,
        j < 8,
    ensures
        bit(((w >> ((56 - 8 * k) as u64)) as u8) as u64, j) == bit(w, (56 - 8 * k + j) as u64),
{
}

impl Block {
    /// The block has fewer than 64 bits, and its value none beyond them. Such a block
    /// is known by its bits: its value is the number that they spell.
    pub open spec fn canonical(&self) -> bool {
        self.bit_count < 64 && self.value >> (self.bit_count as u64) == 0
    }

    /// The value of a canonical block is the number that its bits spell.
    pub proof fn lemma_canonical_value(&self)
        requires
            self.canonical(),
        ensures
            self.value == bits_value(self@),
    {
        lemma_bits_value_of(self.value, self.bit_count as nat);
    }

    /// A block made of a prefix code and the `bit_count` low bits of `value`.
    #[inline]
    pub fn new_with_code(bit_count: usize, value: u64, code_len: usize, code: u64) -> (block: Self)
        requires
            bit_count < 64,
            bit_count + code_len <= 64,
        ensures
            block.bit_count == bit_count + code_len,
            block.value == (code << (bit_count as u64)) | (value & low_mask(bit_count as u64)),
            block@ == bits_of(code, code_len as nat) + bits_of(value, bit_count as nat),
            bit_count + code_len < 64 && code >> (code_len as u64) == 0 ==> block.canonical(),
    {
        let mask = low_bits(bit_count);
        let joined = (code << bit_count) | (value & mask);
        proof {
            lemma_bits_concat(code, code_len as nat, value, bit_count as nat);
            if bit_count + code_len < 64 && code >> (code_len as u64) == 0 {
                lemma_joined_is_small(code, code_len as u64, value, bit_count as u64);
            }
        }
        Self { value: joined, bit_count: bit_count + code_len }
    }

    /// A block of the `bit_count` low bits of `value`.
    #[inline]
    pub fn new(bit_count: usize, value: u64) -> (block: Self)
        ensures
            block.bit_count == bit_count,
            block.value == value,
    {
        Self { bit_count, value }
    }

    /// The block laid out in an eight-byte window, its first bit at bit `buffer_offset`
    /// of the first byte, all other bits zero: `(bytes, bytes_count, new_offset)`, where
    /// `bytes_count` bytes of the window hold the offset and the block, and `new_offset`
    /// is the first unused bit of the last of them (zero if it is full).
    #[inline]
    pub fn into_bytes(self, buffer_offset: usize) -> (out: ([u8; 8], usize, usize))
        requires
            buffer_offset < 8,
            self.bit_count <= 56,
        ensures
            bytes_bits(out.0@) == zeros(buffer_offset as nat) + self@ + zeros(
                (64 - buffer_offset - self.bit_count) as nat,
            ),
            out.1 == (buffer_offset + self.bit_count + 7) / 8,
            out.2 == (buffer_offset + self.bit_count) % 8,
    {
        let total_offset = self.bit_count + buffer_offset;
        let new_offset = total_offset % U8_BITS;
        let mut bytes_count = total_offset / U8_BITS;
        if new_offset > 0 {
            bytes_count += 1;
        }
        let window: u64 = if total_offset == 0 {
            0
        } else {
            (self.value & low_bits(self.bit_count)) << (U64_BITS - total_offset)
        };
        let bytes: [u8; 8] = [
            (window >> 56) as u8,
            (window >> 48) as u8,
            (window >> 40) as u8,
            (window >> 32) as u8,
            (window >> 24) as u8,
            (window >> 16) as u8,
            (window >> 8) as u8,
            window as u8,
        ];
        proof {
            let off = buffer_offset as nat;
            let n = self.bit_count as nat;
            let expected = zeros(off) + self@ + zeros((64 - off - n) as nat);
            assert(window >> 0 == window) by (bit_vector);
            assert forall|p: int| 0 <= p < 64 implies #[trigger] bytes_bits(bytes@)[p] == expected[p] by {
                let k = p / 8;
                let j = 7 - p % 8;
                lemma_window_byte(window, k as u64, j as u64);
                assert(bytes@[k] == (window >> ((56 - 8 * k) as u64)) as u8);
                assert(bytes_bits(bytes@)[p] == bit(window, (63 - p) as u64));
                if total_offset == 0 {
                    assert(!bit(0u64, (63 - p) as u64)) by {
                        lemma_bit_small(0, 0, (63 - p) as u64);
                        assert(0u64 >> 0 == 0) by (bit_vector);
                    }
                } else {
                    lemma_window_bit(self.value, n as u64, off as u64, p as u64);
                }
            }
            assert(bytes_bits(bytes@) =~= expected);
        }
        (bytes, bytes_count, new_offset)
    }
}


/// Every prefix code fits its length.
proof fn lemma_codes_are_small()
    by (bit_vector)
    ensures
        0b00u64 >> 2u64 == 0,
        0b110u64 >> 3u64 == 0,
        0b1110u64 >> 4u64 == 0,
        0b100u64 >> 3u64 == 0,
        0b101u64 >> 3u64 == 0,
        0b01u64 >> 2u64 == 0,
        0b1111u64 >> 4u64 == 0,
{
}

/// The word `raw` with its `w` low bits extended by their sign bit to the whole word.
pub open spec fn sign_extended(raw: u64, w: u64) -> u64 {
    if w >= 64 {
        raw
    } else if bit(raw, (w - 1) as u64) {
        (raw & low_mask(w)) | !low_mask(w)
    } else {
        raw & low_mask(w)
    }
}

/// The sign extension as a number: the low bits, less `2^w` where the sign bit is set.
proof fn lemma_sign_extended_word(raw: u64, w: u64)
    by (bit_vector)
    requires
        1 <= w <= 16,
    ensures
        bit(raw, (w - 1) as u64) ==> (sign_extended(raw, w) as i16) + (1u64 << w) == (raw & low_mask(w)),
        !bit(raw, (w - 1) as u64) ==> (sign_extended(raw, w) as i16) == (raw & low_mask(w)),
{
}

/// Extending twice is extending once.
pub proof fn lemma_sign_extended_idempotent(raw: u64, w: u64)
    by (bit_vector)
    requires
        1 <= w,
    ensures
        sign_extended(sign_extended(raw, w), w) == sign_extended(raw, w),
{
}

/// The low bits of a number in the signed range of `w` bits: the number, plus `2^w`
/// where it is negative.
proof fn lemma_signed_low(d: i16, w: u64)
    by (bit_vector)
    requires
        1 <= w <= 16,
        -(1u64 << ((w - 1) as u64)) <= d < (1u64 << ((w - 1) as u64)),
    ensures
        ({
            let m = (d as u64) & low_mask(w);
            let top = bit(d as u64, (w - 1) as u64);
            &&& top ==> m == d + (1u64 << w)
            &&& !top ==> m == d
        }),
{
}


/// The `w` low bits of the two's complement of `d`, most significant first.
pub open spec fn signed_bits(d: i16, w: nat) -> Seq<bool> {
    bits_of(d as u64, w)
}

/// The payload of a pixel block: the channels in order, `w` bits each, channel 0 first.
pub open spec fn channels_bits(delta: Seq<i16>, w: nat) -> Seq<bool>
    decreases delta.len(),
{
    if delta.len() == 0 {
        Seq::empty()
    } else {
        channels_bits(delta.drop_last(), w) + signed_bits(delta.last(), w)
    }
}

/// The pixel of `c` channels that a payload of `w` bits per channel spells.
pub open spec fn pixel_of_bits(b: Seq<bool>, w: nat, c: nat) -> Seq<i16> {
    Seq::new(c, |i: int| signed_value(b.subrange(i * w, i * w + w)) as i16)
}

/// Every channel of the delta lies in `[lo, hi]`.
pub open spec fn fits(delta: Seq<i16>, lo: int, hi: int) -> bool {
    forall|i: int| 0 <= i < delta.len() ==> lo <= #[trigger] delta[i] <= hi
}

/// The smallest kind of pixel block that holds the delta.
pub open spec fn pixel_typ<const CHANNELS: usize>(delta: Seq<i16>) -> Typ<CHANNELS> {
    if fits(delta, -8, 7) {
        Typ::Short
    } else if fits(delta, -32, 31) {
        Typ::Medium
    } else {
        Typ::Long
    }
}

/// A pixel block of the given kind: prefix code, then the channels.
pub open spec fn pixel_bits<const CHANNELS: usize>(delta: Seq<i16>, typ: Typ<CHANNELS>) -> Seq<bool> {
    typ.prefix() + channels_bits(delta, typ.channel_bits_of())
}

/// The three colour channels are equal and lie in `[-8, 7]`.
pub open spec fn gray(delta: Seq<i16>) -> bool {
    delta[0] == delta[1] && delta[1] == delta[2] && -8 <= delta[0] <= 7
}

/// A number in the signed range of `w` bits is the signed value of its `w` low bits.
pub proof fn lemma_signed_bits_value(d: i16, w: nat)
    requires
        1 <= w <= 16,
        -two_pow((w - 1) as nat) <= d < two_pow((w - 1) as nat),
    ensures
        signed_value(signed_bits(d, w)) == d,
{
    let b = signed_bits(d, w);
    let m = (d as u64) & low_mask(w as u64);
    lemma_two_pow(w);
    lemma_two_pow((w - 1) as nat);
    lemma_signed_low(d, w as u64);
    lemma_bits_mask(d as u64, w);
    lemma_bits_value_of(m, w);
    assert(bits_value(b) == m);
    assert(b[0] == bit(d as u64, (w - 1) as u64));
}

/// The sign extension of a word, as a number, is the signed value of its `w` low bits.
pub proof fn lemma_sign_extended_value(raw: u64, w: nat)
    requires
        1 <= w <= 16,
    ensures
        (sign_extended(raw, w as u64) as i16) as int == signed_value(bits_of(raw, w)),
{
    let b = bits_of(raw, w);
    let m = raw & low_mask(w as u64);
    lemma_two_pow(w);
    lemma_sign_extended_word(raw, w as u64);
    lemma_bits_mask(raw, w);
    lemma_bits_value_of(m, w);
    assert(bits_value(b) == m);
    assert(b[0] == bit(raw, (w - 1) as u64));
}

/// The payload of `c` channels spells the pixel it was made of, if every channel is in range.
pub proof fn lemma_pixel_of_channels_bits(delta: Seq<i16>, w: nat)
    requires
        1 <= w <= 16,
        fits(delta, -two_pow((w - 1) as nat), two_pow((w - 1) as nat) - 1),
    ensures
        channels_bits(delta, w).len() == delta.len() * w,
        pixel_of_bits(channels_bits(delta, w), w, delta.len()) == delta,
    decreases delta.len(),
{
    let c = delta.len();
    let all = channels_bits(delta, w);
    if c == 0 {
        assert(pixel_of_bits(all, w, c) =~= delta);
    } else {
        let head = delta.drop_last();
        lemma_pixel_of_channels_bits(head, w);
        let front = channels_bits(head, w);
        assert(c * w == (c - 1) * w + w) by (nonlinear_arith);
        assert forall|i: int| 0 <= i < c implies #[trigger] pixel_of_bits(all, w, c)[i] == delta[i] by {
            assert(0 <= i * w && i * w + w <= c * w) by (nonlinear_arith)
                requires
                    0 <= i < c,
                    w >= 1,
            ;
            if i < c - 1 {
                assert(i * w + w <= (c - 1) * w) by (nonlinear_arith)
                    requires
                        0 <= i < c - 1,
                        w >= 1,
                ;
                assert(all.subrange(i * w, i * w + w) =~= front.subrange(i * w, i * w + w));
                assert(pixel_of_bits(front, w, (c - 1) as nat)[i] == head[i]);
            } else {
                assert(all.subrange(i * w, i * w + w) =~= signed_bits(delta.last(), w));
                lemma_signed_bits_value(delta.last(), w);
            }
        }
        assert(pixel_of_bits(all, w, c) =~= delta);
    }
}

/// The number of bits that `c` channels of `w` bits take.
pub proof fn lemma_channels_bits_len(delta: Seq<i16>, w: nat)
    ensures
        channels_bits(delta, w).len() == delta.len() * w,
    decreases delta.len(),
{
    if delta.len() > 0 {
        lemma_channels_bits_len(delta.drop_last(), w);
        assert(delta.len() * w == (delta.len() - 1) * w + w) by (nonlinear_arith);
    } else {
        assert(0 * w == 0) by (nonlinear_arith);
    }
}

impl Block {
    /// The number of payload bits that follow a prefix code.
    #[inline]
    pub fn block_len<const CHANNELS: usize>(code: u64) -> (len: usize)
        requires
            CHANNELS <= 4,
            Typ::<CHANNELS>::of_code(code) is Some,
        ensures
            len == Typ::<CHANNELS>::of_code(code).unwrap().payload_len_of(),
            len <= 36,
    {
        match Typ::<CHANNELS>::from_code(code) {
            Some(typ) => typ.payload_len(),
            None => 0,
        }
    }
}

/// Runs: how many pixels repeat the previous delta pixel. A run has between 1 and 64
/// pixels and is stored as its length minus one.
pub struct Repeating;

impl Repeating {
    /// The longest run that one block holds.
    pub const MAX: usize = 64;

    /// The block for a run of `value` pixels.
    #[inline]
    pub fn encode(value: usize) -> (block: Block)
        requires
            1 <= value <= 64,
        ensures
            block@ == bits_of(0b100, 3) + bits_of((value - 1) as u64, 6),
            block.bit_count == 9,
            block.canonical(),
    {
        proof {
            lemma_codes_are_small();
        }
        Block::new_with_code(6, (value - 1) as u64, 3, 0b100)
    }
}

/// The reserved gray block.
pub struct Gray<const CHANNELS: usize>;

impl<const CHANNELS: usize> Gray<CHANNELS> {
    /// The smallest channel value of a gray delta.
    pub const MIN: i16 = -8;

    /// The largest channel value of a gray delta.
    pub const MAX: i16 = 7;

    /// The gray block of a pixel: the two low bits of its first channel.
    #[inline]
    pub fn encode(pixel: &img::Pixel<CHANNELS>) -> (block: Block)
        requires
            CHANNELS >= 1,
        ensures
            block@ == bits_of(0b101, 3) + signed_bits(pixel@[0], 2),
            block.bit_count == 5,
            block.canonical(),
    {
        proof {
            lemma_codes_are_small();
        }
        Block::new_with_code(2, #[verifier::truncate] (pixel.0[0] as u64), 3, 0b101)
    }

    /// Whether the three colour channels are equal and lie in `[-8, 7]`.
    #[inline]
    pub fn is_gray(pixel: &img::Pixel<CHANNELS>) -> (r: bool)
        requires
            CHANNELS >= 3,
        ensures
            r == gray(pixel@),
    {
        if pixel.0[0] == pixel.0[1] && pixel.0[1] == pixel.0[2] {
            pixel.0[0] <= 7 && pixel.0[0] >= -8
        } else {
            false
        }
    }
}

/// References to a slot of the offset table.
pub struct Offset;

impl Offset {
    /// The bits of a slot index.
    pub const MASK: usize = 0b111111;

    /// The number of slots.
    pub const MAX: usize = 64;

    /// The block that refers to slot `value`.
    #[inline]
    pub fn encode(value: usize) -> (block: Block)
        requires
            value < 64,
        ensures
            block@ == bits_of(0b1111, 4) + bits_of(value as u64, 6),
            block.bit_count == 10,
            block.canonical(),
    {
        proof {
            lemma_codes_are_small();
        }
        Block::new_with_code(6, value as u64, 4, 0b1111)
    }
}

/// Pixel blocks in their three widths.
pub struct Pixel<const CHANNELS: usize>;

impl<const CHANNELS: usize> Pixel<CHANNELS> {
    /// Bits per channel of a short pixel.
    pub const SHORT_BITS: usize = 4;

    /// Bits per channel of a medium pixel.
    pub const MEDIUM_BITS: usize = 6;

    /// Bits per channel of a long pixel.
    pub const LONG_BITS: usize = 9;

    /// The smallest pixel block that holds the delta pixel.
    #[inline]
    pub fn encode(pixel: &img::Pixel<CHANNELS>) -> (block: Block)
        requires
            CHANNELS <= 4,
        ensures
            block@ == pixel_bits(pixel@, pixel_typ::<CHANNELS>(pixel@)),
            block.bit_count == pixel_typ::<CHANNELS>(pixel@).code_len_of() + pixel_typ::<CHANNELS>(
                pixel@,
            ).payload_len_of(),
            block.bit_count <= 40,
            block.canonical(),
    {
        let mut short = true;
        let mut medium = true;
        let ghost mut beyond_short: int = 0;
        let ghost mut beyond_medium: int = 0;
        let mut idx: usize = 0;
        while idx < CHANNELS
            invariant
                idx <= CHANNELS,
                short ==> forall|j: int| 0 <= j < idx ==> -8 <= #[trigger] pixel@[j] <= 7,
                !short ==> 0 <= beyond_short < idx && !(-8 <= pixel@[beyond_short] <= 7),
                medium ==> forall|j: int| 0 <= j < idx ==> -32 <= #[trigger] pixel@[j] <= 31,
                !medium ==> 0 <= beyond_medium < idx && !(-32 <= pixel@[beyond_medium] <= 31),
            decreases CHANNELS - idx,
        {
            let v = pixel.0[idx];
            if v < -8 || v > 7 {
                short = false;
                proof {
                    beyond_short = idx as int;
                }
            }
            if v < -32 || v > 31 {
                medium = false;
                proof {
                    beyond_medium = idx as int;
                }
            }
            idx += 1;
        }
        let typ: Typ<CHANNELS> = if short {
            Typ::Short
        } else if medium {
            Typ::Medium
        } else {
            Typ::Long
        };
        assert(typ == pixel_typ::<CHANNELS>(pixel@));
        Self::encode_as(pixel, typ)
    }

    /// The pixel block of the given kind for the delta pixel: each channel is cut to the
    /// width of the kind.
    #[inline]
    pub fn encode_as(pixel: &img::Pixel<CHANNELS>, typ: Typ<CHANNELS>) -> (block: Block)
        requires
            CHANNELS <= 4,
            typ.channel_bits_of() > 0,
        ensures
            block@ == pixel_bits(pixel@, typ),
            block.bit_count == typ.code_len_of() + typ.payload_len_of(),
            block.bit_count <= 40,
            block.canonical(),
    {
        proof {
            lemma_codes_are_small();
        }
        let channel_size: usize = match typ {
            Typ::Short => 4,
            Typ::Medium => 6,
            _ => 9,
        };
        let value = Self::encode_channels(pixel, channel_size);
        Block::new_with_code(typ.payload_len(), value, typ.code_len(), typ.code())
    }

    /// The channels side by side, `channel_size` bits each, channel 0 in the highest bits.
    #[inline]
    fn encode_channels(pixel: &img::Pixel<CHANNELS>, channel_size: usize) -> (value: u64)
        requires
            CHANNELS <= 4,
            1 <= channel_size <= 9,
        ensures
            bits_of(value, (CHANNELS * channel_size) as nat) == channels_bits(
                pixel@,
                channel_size as nat,
            ),
    {
        let mask = low_bits(channel_size);
        let mut value: u64 = 0;
        let mut idx: usize = 0;
        let ghost w = channel_size as nat;
        assert(pixel@.take(0) =~= Seq::<i16>::empty());
        assert(bits_of(value, 0) =~= channels_bits(pixel@.take(0), w));
        assert(0 * channel_size == 0) by (nonlinear_arith);
        while idx < CHANNELS
            invariant
                idx <= CHANNELS <= 4,
                1 <= channel_size <= 9,
                w == channel_size,
                mask == low_mask(channel_size as u64),
                bits_of(value, (idx * channel_size) as nat) == channels_bits(pixel@.take(idx as int), w),
            decreases CHANNELS - idx,
        {
            let field = #[verifier::truncate] (pixel.0[idx] as u64);
            proof {
                assert((idx + 1) * channel_size == idx * channel_size + channel_size)
                    by (nonlinear_arith);
                assert(idx * channel_size <= 3 * 9) by (nonlinear_arith)
                    requires
                        idx <= 3,
                        channel_size <= 9,
                ;
                lemma_bits_concat(value, (idx * channel_size) as nat, field, w);
                assert(pixel@.take(idx + 1).drop_last() =~= pixel@.take(idx as int));
                assert(pixel@.take(idx + 1).last() == pixel@[idx as int]);
            }
            value = (value << channel_size) | (field & mask);
            idx += 1;
        }
        assert(pixel@.take(CHANNELS as int) =~= pixel@);
        value
    }

    /// The delta pixel that the payload of a pixel block spells. `code` is the prefix
    /// code of a short, medium or long pixel block.
    #[inline]
    pub fn decode(value: u64, code: u64) -> (pixel: img::Pixel<CHANNELS>)
        requires
            CHANNELS <= 4,
            Typ::<CHANNELS>::of_code(code) matches Some(typ) && typ.channel_bits_of() > 0,
        ensures
            ({
                let typ = Typ::<CHANNELS>::of_code(code).unwrap();
                pixel@ == pixel_of_bits(
                    bits_of(value, typ.payload_len_of()),
                    typ.channel_bits_of(),
                    CHANNELS as nat,
                )
            }),
    {
        let channel_size: usize = if code == 0b00 {
            4
        } else if code == 0b110 {
            6
        } else {
            9
        };
        let ghost typ = Typ::<CHANNELS>::of_code(code).unwrap();
        let ghost w = channel_size as nat;
        let total: usize = channel_size * CHANNELS;
        let ghost all = bits_of(value, total as nat);
        let mask = low_bits(channel_size);
        let mut pixel = [0i16;CHANNELS];
        let mut idx: usize = 0;
        let mut shift: usize = total;
        assert(0 * channel_size == 0) by (nonlinear_arith);
        while idx < CHANNELS
            invariant
                idx <= CHANNELS <= 4,
                1 <= channel_size <= 9,
                w == channel_size,
                total == channel_size * CHANNELS,
                total <= 36,
                mask == low_mask(channel_size as u64),
                all == bits_of(value, total as nat),
                shift + idx * channel_size == total,
                forall|j: int|
                    0 <= j < idx ==> #[trigger] pixel@[j] == signed_value(
                        all.subrange(j * w, j * w + w),
                    ) as i16,
            decreases CHANNELS - idx,
        {
            proof {
                assert((idx + 1) * channel_size == idx * channel_size + channel_size)
                    by (nonlinear_arith);
                assert((idx + 1) * channel_size <= channel_size * CHANNELS) by (nonlinear_arith)
                    requires
                        idx + 1 <= CHANNELS,
                ;
            }
            shift = shift - channel_size;
            let field = (value >> shift) & mask;
            let extended = Self::extend_sign(field, channel_size);
            proof {
                let lo = (idx * channel_size) as nat;
                lemma_bits_mask(value >> shift, w);
                lemma_bits_shr(value, shift as nat, w);
                lemma_bits_suffix(value, total as nat, w + shift as nat);
                assert(bits_of(field, w) =~= all.subrange(lo as int, (lo + w) as int));
                lemma_sign_extended_value(field, w);
                lemma_bit_mask(value >> shift, channel_size as u64, (channel_size - 1) as u64);
                lemma_sign_same(value >> shift, channel_size as u64);
            }
            pixel[idx] = #[verifier::truncate] (extended as i16);
            idx += 1;
        }
        let pixel = img::Pixel(pixel);
        assert(pixel@ =~= pixel_of_bits(all, w, CHANNELS as nat));
        pixel
    }

    /// The `src_size` low bits of `raw`, a number in two's complement, made a whole word
    /// of the same number: the bits above them are copies of bit `src_size - 1`.
    pub fn extend_sign(raw: u64, src_size: usize) -> (extended: u64)
        requires
            1 <= src_size <= 64,
        ensures
            extended == sign_extended(raw, src_size as u64),
    {
        if src_size >= 64 {
            return raw;
        }
        let mask = low_bits(src_size);
        let field = raw & mask;
        if (raw >> (src_size - 1)) & 1 == 1 {
            field | !mask
        } else {
            field
        }
    }
}

/// The sign extension depends on the `w` low bits alone.
proof fn lemma_sign_same(v: u64, w: u64)
    by (bit_vector)
    requires
        1 <= w < 64,
    ensures
        sign_extended(v & low_mask(w), w) == sign_extended(v, w),
{
}

/// References to an entry of the palette.
pub struct Color;

impl Color {
    /// The number of entries that the palette of a stream holds.
    pub const MAX: usize = 16;

    /// The block that refers to entry `value` of the palette.
    #[inline]
    pub fn encode(value: usize) -> (block: Block)
        requires
            value < 16,
        ensures
            block@ == bits_of(0b01, 2) + bits_of(value as u64, 4),
            block.bit_count == 6,
            block.canonical(),
    {
        proof {
            lemma_codes_are_small();
        }
        Block::new_with_code(4, value as u64, 2, 0b01)
    }
}

} // verus!
