//! The decoder: header, then block after block, then the inverse delta.
use crate::bits::{bit, bytes_bits, lemma_bits_value_bound, two_pow};
use crate::blocks;
use crate::blocks::Typ;
use crate::buffer::{block_at, code_at, lemma_code_is_known, only_padding, read, BufferDecoder};
use crate::error::DecodeError;
use crate::img::{hash_of, table, zero_pixel, Header, Pixel};
use crate::stream::{parse_header, token_of, undelta, Token};
use vstd::prelude::*;

verus! {

/// What the decoder carries from block to block.
pub struct DecoderState {
    /// The offset table: per slot, the delta pixel last decoded with that hash.
    pub offsets: Seq<Seq<i16>>,
    /// The delta pixel decoded last.
    pub previous: Seq<i16>,
}

/// The state before the first block: zero pixels everywhere.
pub open spec fn start(c: nat) -> DecoderState {
    DecoderState { offsets: Seq::new(64, |i: int| zero_pixel(c)), previous: zero_pixel(c) }
}

/// The delta pixels that a block stands for.
pub open spec fn emitted(state: DecoderState, token: Token, palette: Seq<Seq<i16>>) -> Seq<
    Seq<i16>,
> {
    match token {
        Token::Short(delta) | Token::Medium(delta) | Token::Long(delta) => seq![delta],
        Token::Palette(index) => seq![palette[index as int]],
        Token::Repeat(length) => Seq::new(length, |i: int| state.previous),
        Token::Offset(slot) => seq![state.offsets[slot as int]],
        Token::Gray(_) => Seq::empty(),
    }
}

/// The state after a block. A pixel or a palette entry goes into its slot of the
/// offset table; a run and a reference to a slot leave the table as it is.
pub open spec fn apply(state: DecoderState, token: Token, palette: Seq<Seq<i16>>) -> DecoderState {
    match token {
        Token::Short(delta) | Token::Medium(delta) | Token::Long(delta) => DecoderState {
            offsets: state.offsets.update(hash_of(delta), delta),
            previous: delta,
        },
        Token::Palette(index) => DecoderState {
            offsets: state.offsets.update(hash_of(palette[index as int]), palette[index as int]),
            previous: palette[index as int],
        },
        Token::Repeat(_) => state,
        Token::Offset(slot) => DecoderState {
            offsets: state.offsets,
            previous: state.offsets[slot as int],
        },
        Token::Gray(_) => state,
    }
}

/// The state after a sequence of blocks, and the delta pixels that they stand for.
pub open spec fn replay(tokens: Seq<Token>, palette: Seq<Seq<i16>>, c: nat) -> (
    DecoderState,
    Seq<Seq<i16>>,
)
    decreases tokens.len(),
{
    if tokens.len() == 0 {
        (start(c), Seq::empty())
    } else {
        let (state, deltas) = replay(tokens.drop_last(), palette, c);
        (apply(state, tokens.last(), palette), deltas + emitted(state, tokens.last(), palette))
    }
}

/// Blocks in front of what follows them, where that could be read.
pub open spec fn with_front(front: Seq<Token>, rest: Result<Seq<Token>, DecodeError>) -> Result<
    Seq<Token>,
    DecodeError,
> {
    match rest {
        Ok(tokens) => Ok(front + tokens),
        Err(e) => Err(e),
    }
}

/// The blocks of a body that begins at `pos`. The body ends where no whole block is
/// left; what is left then has to be padding. The reserved gray block is refused.
pub open spec fn parse_body<const CHANNELS: usize>(bits: Seq<bool>, pos: nat) -> Result<
    Seq<Token>,
    DecodeError,
>
    decreases bits.len() - pos,
{
    match block_at::<CHANNELS>(bits, pos) {
        None => if only_padding(bits, pos) {
            Ok(Seq::empty())
        } else {
            Err(DecodeError::Truncated)
        },
        Some((code, value, after)) => if code == 0b101 {
            Err(DecodeError::UnknownPrefix)
        } else if pos < after <= bits.len() {
            with_front(seq![token_of::<CHANNELS>(code, value)], parse_body::<CHANNELS>(bits, after))
        } else {
            Err(DecodeError::Truncated)
        },
    }
}

/// What a stream of `CHANNELS` channels decodes to: the bytes of the image, its width
/// and its height.
#[verifier::opaque]
pub open spec fn decoded<const CHANNELS: usize>(bytes: Seq<u8>) -> Result<
    (Seq<u8>, u32, u32),
    DecodeError,
> {
    let bits = bytes_bits(bytes);
    match parse_header::<CHANNELS>(bits, 0) {
        Err(e) => Err(e),
        Ok((width, height, palette, pos)) => match parse_body::<CHANNELS>(bits, pos) {
            Err(e) => Err(e),
            Ok(tokens) => {
                let deltas = replay(tokens, palette, CHANNELS as nat).1;
                if deltas.len() != width * height {
                    Err(DecodeError::DimensionMismatch)
                } else {
                    Ok((undelta(deltas, CHANNELS as nat), width, height))
                }
            },
        },
    }
}

/// What a stream decodes to, the number of channels taken from its alpha flag.
pub open spec fn decoded_any(bytes: Seq<u8>) -> Result<(Seq<u8>, u32, u32), DecodeError> {
    if bytes.len() == 0 {
        Err(DecodeError::Truncated)
    } else if bytes_bits(bytes)[0] {
        decoded::<4>(bytes)
    } else {
        decoded::<3>(bytes)
    }
}

/// A block that can be read has one of the seven codes, a payload that fits its
/// width, and ends within the stream.
pub proof fn lemma_block_at_bounds<const CHANNELS: usize>(bits: Seq<bool>, pos: nat)
    ensures
        block_at::<CHANNELS>(bits, pos) matches Some((code, value, after)) ==> {
            &&& Typ::<CHANNELS>::of_code(code as u64) matches Some(typ)
            &&& code == typ.code_of()
            &&& value < two_pow(typ.payload_len_of())
            &&& after == pos + typ.code_len_of() + typ.payload_len_of()
            &&& after <= bits.len()
            &&& read(bits, (pos + typ.code_len_of()) as nat, typ.payload_len_of()) == Some(value)
        },
{
    reveal(block_at);
    reveal(code_at);
    lemma_code_is_known::<CHANNELS>(bits, pos);
    if let Some((code, value, after)) = block_at::<CHANNELS>(bits, pos) {
        let typ = Typ::<CHANNELS>::of_code(code as u64).unwrap();
        let from = (after - typ.payload_len_of()) as nat;
        lemma_bits_value_bound(bits.subrange(from as int, after as int));
    }
}

/// The highest bit of the first byte is the first bit of the stream.
proof fn lemma_alpha_bit(b: u8)
    by (bit_vector)
    ensures
        (b & 0x80 != 0) == bit(b as u64, 7),
{
}

/// Decodes a stream; the number of channels is taken from its alpha flag.
pub fn decode(raw: Vec<u8>) -> (out: Result<(Vec<u8>, u32, u32), DecodeError>)
    ensures
        match decoded_any(raw@) {
            Ok((bytes, width, height)) => out matches Ok((b, w, h)) && b@ == bytes && w == width
                && h == height,
            Err(e) => out == Err::<(Vec<u8>, u32, u32), DecodeError>(e),
        },
        out matches Ok((b, w, h)) ==> b@.len() == w * h * (if bytes_bits(raw@)[0] {
            4int
        } else {
            3int
        }),
{
    if raw.len() == 0 {
        return Err(DecodeError::Truncated);
    }
    let first = raw[0];
    proof {
        lemma_alpha_bit(first);
    }
    let is_alpha = (first & 0b10000000) != 0;
    if is_alpha {
        Decoder::<4>::decode(raw)
    } else {
        Decoder::<3>::decode(raw)
    }
}

/// The replay in progress: the state carried from block to block, and the delta
/// pixels decoded so far.
struct Replay<const CHANNELS: usize> {
    offsets: [Pixel<CHANNELS>; 64],
    previous: Pixel<CHANNELS>,
    pixels: Vec<Pixel<CHANNELS>>,
}

impl<const CHANNELS: usize> Replay<CHANNELS> {
    /// The state carried from block to block.
    spec fn state(&self) -> DecoderState {
        DecoderState { offsets: table(self.offsets@), previous: self.previous@ }
    }

    /// The delta pixels decoded so far.
    spec fn deltas(&self) -> Seq<Seq<i16>> {
        table(self.pixels@)
    }

    /// Decodes one delta pixel that goes into its slot of the offset table.
    fn take(&mut self, pixel: Pixel<CHANNELS>)
        requires
            CHANNELS <= 4,
        ensures
            final(self).state() == (DecoderState {
                offsets: old(self).state().offsets.update(hash_of(pixel@), pixel@),
                previous: pixel@,
            }),
            final(self).deltas() == old(self).deltas() + seq![pixel@],
    {
        let hashed = pixel.hash();
        self.offsets[hashed] = pixel;
        self.pixels.push(pixel);
        self.previous = pixel;
        assert(table(self.offsets@) =~= old(self).state().offsets.update(hash_of(pixel@), pixel@));
        assert(self.deltas() =~= old(self).deltas() + seq![pixel@]);
    }

    /// Decodes one block.
    fn apply(&mut self, code: u64, value: u64, header: &Header<CHANNELS>)
        requires
            CHANNELS == 3 || CHANNELS == 4,
            header.palette@.len() == 16,
            Typ::<CHANNELS>::of_code(code) matches Some(typ) && value < two_pow(
                typ.payload_len_of(),
            ),
            code != 0b101,
        ensures
            final(self).state() == apply(
                old(self).state(),
                token_of::<CHANNELS>(code as nat, value as nat),
                header.colors(),
            ),
            final(self).deltas() == old(self).deltas() + emitted(
                old(self).state(),
                token_of::<CHANNELS>(code as nat, value as nat),
                header.colors(),
            ),
    {
        proof {
            reveal_with_fuel(two_pow, 7);
        }
        if code == 0b01 {
            let pixel = match header.color(value as usize) {
                Ok(pixel) => pixel,
                Err(_) => Pixel::zeros(),
            };
            self.take(pixel);
        } else if code == 0b100 {
            let ghost before = self.deltas();
            let ghost previous = self.previous@;
            let mut i: u64 = 0;
            while i <= value
                invariant
                    value < 64,
                    i <= value + 1,
                    self.offsets == old(self).offsets,
                    self.previous == old(self).previous,
                    previous == self.previous@,
                    self.deltas() == before + Seq::new(i as nat, |j: int| previous),
                decreases value + 1 - i,
            {
                let ghost prior = self.deltas();
                self.pixels.push(self.previous);
                i += 1;
                assert(self.deltas() =~= prior.push(previous));
                assert(prior.push(previous) =~= before + Seq::new(i as nat, |j: int| previous));
            }
        } else if code == 0b1111 {
            let pixel = self.offsets[value as usize];
            self.pixels.push(pixel);
            self.previous = pixel;
            assert(self.deltas() =~= old(self).deltas() + seq![pixel@]);
        } else {
            let pixel = blocks::Pixel::<CHANNELS>::decode(value, code);
            self.take(pixel);
        }
    }

    /// The image that the delta pixels lead to from the zero pixel.
    fn into_bytes(self) -> (bytes: Vec<u8>)
        requires
            CHANNELS == 3 || CHANNELS == 4,
        ensures
            bytes@ == undelta(self.deltas(), CHANNELS as nat),
            bytes@.len() == self.deltas().len() * CHANNELS,
    {
        let ghost deltas = self.deltas();
        let ghost c = CHANNELS as nat;
        let n = self.pixels.len();
        let mut bytes: Vec<u8> = Vec::new();
        let mut previous: Vec<u8> = Vec::new();
        let mut f: usize = 0;
        while f < CHANNELS
            invariant
                f <= CHANNELS,
                previous@.len() == f,
                forall|j: int| 0 <= j < f ==> previous@[j] == 0u8,
            decreases CHANNELS - f,
        {
            previous.push(0u8);
            f += 1;
        }
        assert(previous@ =~= Seq::new(c, |i: int| 0u8));
        assert(deltas.take(0) =~= Seq::<Seq<i16>>::empty());
        assert(0 * CHANNELS == 0) by (nonlinear_arith);
        let mut k: usize = 0;
        while k < n
            invariant
                CHANNELS == 3 || CHANNELS == 4,
                c == CHANNELS,
                k <= n,
                n == self.pixels@.len(),
                deltas == self.deltas(),
                deltas.len() == n,
                bytes@.len() == k * CHANNELS,
                bytes@ == undelta(deltas.take(k as int), c),
                previous@.len() == c,
                k == 0 ==> previous@ == Seq::new(c, |i: int| 0u8),
                k > 0 ==> bytes@.len() >= c && previous@ == bytes@.subrange(
                    bytes@.len() - c,
                    bytes@.len() as int,
                ),
            decreases n - k,
        {
            let current = Pixel::<CHANNELS>::compute_backward(previous.as_slice(), &self.pixels[k]);
            proof {
                assert(deltas.take(k + 1).drop_last() =~= deltas.take(k as int));
                assert(deltas.take(k + 1).last() == self.pixels@[k as int]@);
                assert(deltas.take(k + 1).len() == 1 <==> k == 0);
            }
            let ghost before = bytes@;
            assert((k + 1) * CHANNELS == k * CHANNELS + CHANNELS) by (nonlinear_arith);
            let mut j: usize = 0;
            while j < CHANNELS
                invariant
                    j <= CHANNELS,
                    current@.len() == CHANNELS,
                    bytes@ == before + current@.take(j as int),
                decreases CHANNELS - j,
            {
                bytes.push(current[j]);
                j += 1;
                assert(bytes@ =~= before + current@.take(j as int));
            }
            assert(current@.take(CHANNELS as int) =~= current@);
            assert(bytes@.subrange(bytes@.len() - c, bytes@.len() as int) =~= current@);
            previous = current;
            k += 1;
        }
        assert(deltas.take(n as int) =~= deltas);
        bytes
    }
}

/// The decoder for streams of `CHANNELS` channels.
pub struct Decoder<const CHANNELS: usize>;

impl<const CHANNELS: usize> Decoder<CHANNELS> {
    /// Decodes a stream of `CHANNELS` channels, whatever its alpha flag says.
    pub fn decode(raw: Vec<u8>) -> (out: Result<(Vec<u8>, u32, u32), DecodeError>)
        requires
            CHANNELS == 3 || CHANNELS == 4,
        ensures
            match decoded::<CHANNELS>(raw@) {
                Ok((bytes, width, height)) => out matches Ok((b, w, h)) && b@ == bytes && w == width
                    && h == height,
                Err(e) => out == Err::<(Vec<u8>, u32, u32), DecodeError>(e),
            },
            out matches Ok((b, w, h)) ==> b@.len() == w * h * CHANNELS,
    {
        let ghost bits = bytes_bits(raw@);
        let ghost c = CHANNELS as nat;
        proof {
            reveal(decoded);
        }
        let mut buffer = BufferDecoder::new(raw);
        let header = match Header::<CHANNELS>::from_buffer(&mut buffer) {
            Err(e) => {
                return Err(e);
            },
            Ok(header) => header,
        };
        let ghost palette = header.colors();
        let ghost body = buffer.pos();
        let mut run = Replay::<CHANNELS> {
            offsets: [Pixel::<CHANNELS>::zeros();64],
            previous: Pixel::zeros(),
            pixels: Vec::new(),
        };
        let ghost mut tokens: Seq<Token> = Seq::empty();
        let ghost mut at: nat = body;
        proof {
            assert(table(run.offsets@) =~= start(c).offsets);
            assert(run.deltas() =~= Seq::<Seq<i16>>::empty());
            lemma_block_at_bounds::<CHANNELS>(bits, at);
        }
        let mut block = buffer.next_block::<CHANNELS>();
        while block.is_some()
            invariant
                CHANNELS == 3 || CHANNELS == 4,
                c == CHANNELS,
                buffer.wf(),
                buffer.bits() == bits,
                bits == bytes_bits(raw@),
                parse_header::<CHANNELS>(bits, 0) == Ok::<(u32, u32, Seq<Seq<i16>>, nat), DecodeError>(
                    (header.width, header.height, palette, body),
                ),
                header.palette@.len() == 16,
                palette == header.colors(),
                at <= bits.len(),
                parse_body::<CHANNELS>(bits, body) == with_front(
                    tokens,
                    parse_body::<CHANNELS>(bits, at),
                ),
                match block_at::<CHANNELS>(bits, at) {
                    Some((code, value, after)) => block == Some((code as u64, value as u64))
                        && code <= 15 && value <= u64::MAX && buffer.pos() == after,
                    None => block.is_none() && buffer.pos() == at,
                },
                replay(tokens, palette, c) == (run.state(), run.deltas()),
            decreases bits.len() - at,
        {
            let (code, value) = block.unwrap();
            proof {
                reveal(decoded);
                lemma_block_at_bounds::<CHANNELS>(bits, at);
            }
            if code == 0b101 {
                return Err(DecodeError::UnknownPrefix);
            }
            let ghost token = token_of::<CHANNELS>(code as nat, value as nat);
            run.apply(code, value, &header);
            proof {
                let rest = parse_body::<CHANNELS>(bits, buffer.pos());
                assert(tokens.push(token).drop_last() =~= tokens);
                assert(with_front(tokens, with_front(seq![token], rest)) == with_front(
                    tokens.push(token),
                    rest,
                )) by {
                    if let Ok(more) = rest {
                        assert(tokens + (seq![token] + more) =~= tokens.push(token) + more);
                    }
                }
                tokens = tokens.push(token);
                at = buffer.pos();
                lemma_block_at_bounds::<CHANNELS>(bits, at);
            }
            block = buffer.next_block::<CHANNELS>();
        }
        if !buffer.at_padding() {
            return Err(DecodeError::Truncated);
        }
        assert(parse_body::<CHANNELS>(bits, body) == Ok::<Seq<Token>, DecodeError>(tokens)) by {
            assert(tokens + Seq::<Token>::empty() =~= tokens);
        }
        assert(header.width * header.height <= 0xffff_ffff * 0xffff_ffff) by (nonlinear_arith)
            requires
                header.width <= 0xffff_ffff,
                header.height <= 0xffff_ffff,
        ;
        if run.pixels.len() as u64 != (header.width as u64) * (header.height as u64) {
            return Err(DecodeError::DimensionMismatch);
        }
        let bytes = run.into_bytes();
        Ok((bytes, header.width, header.height))
    }
}

} // verus!
