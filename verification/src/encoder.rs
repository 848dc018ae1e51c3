//! The encoder: for each pixel the smallest block, runs coalesced.
use crate::bits::pack;
use crate::blocks;
use crate::blocks::Typ;
use crate::buffer::Buffer;
use crate::error::EncodeError;
use crate::img::{hash_of, table, zero_pixel, Header, Image, Pixel};
use crate::log::{count_of, lemma_count_bound, Logger};
use crate::palette::{index_of, lemma_index_of_some, palette_of, Palette};
use crate::stream::{
    deltas_of, header_bits, pixel_at, pixel_before, pixel_token, token_bits, tokens_bits, typ_of,
    Token,
};
use vstd::prelude::*;
use vstd::slice::slice_subrange;

verus! {

/// What the encoder carries from pixel to pixel.
pub struct EncoderState {
    /// The offset table: per slot, the delta pixel last seen with that hash.
    pub offsets: Seq<Seq<i16>>,
    /// The hash of the previous delta pixel.
    pub previous_hash: int,
    /// The length of the run that is open, zero if none is.
    pub repeating: nat,
}

/// The state before the first pixel: zero pixels in every slot, no run.
pub open spec fn start(c: nat) -> EncoderState {
    EncoderState { offsets: Seq::new(64, |i: int| zero_pixel(c)), previous_hash: 0, repeating: 0 }
}

/// The delta pixel is the one that the previous pixel left in its slot.
pub open spec fn in_run(state: EncoderState, delta: Seq<i16>) -> bool {
    state.offsets[state.previous_hash] == delta
}

/// The block that closes an open run.
pub open spec fn flush(repeating: nat) -> Seq<Token> {
    if repeating > 0 {
        seq![Token::Repeat(repeating)]
    } else {
        Seq::empty()
    }
}

/// The block for a delta pixel outside a run: a palette index if the palette has it,
/// else its slot if the slot holds it, else the smallest pixel block.
pub open spec fn chosen<const CHANNELS: usize>(
    state: EncoderState,
    delta: Seq<i16>,
    palette: Seq<Seq<i16>>,
) -> Token {
    match index_of(palette, delta) {
        Some(index) => Token::Palette(index as nat),
        None => if state.offsets[hash_of(delta)] == delta {
            Token::Offset(hash_of(delta) as nat)
        } else {
            pixel_token::<CHANNELS>(delta)
        },
    }
}

/// The blocks that one pixel makes the encoder emit. In a run: none, or the full run of
/// 64 that it closes. Outside: the open run, if any, and the block for the pixel.
pub open spec fn step_tokens<const CHANNELS: usize>(
    state: EncoderState,
    delta: Seq<i16>,
    palette: Seq<Seq<i16>>,
) -> Seq<Token> {
    if in_run(state, delta) {
        if state.repeating < 64 {
            Seq::empty()
        } else {
            seq![Token::Repeat(64)]
        }
    } else {
        flush(state.repeating).push(chosen::<CHANNELS>(state, delta, palette))
    }
}

/// The state after one pixel.
pub open spec fn step(state: EncoderState, delta: Seq<i16>) -> EncoderState {
    EncoderState {
        offsets: state.offsets.update(hash_of(delta), delta),
        previous_hash: hash_of(delta),
        repeating: if in_run(state, delta) {
            if state.repeating < 64 {
                state.repeating + 1
            } else {
                1
            }
        } else {
            0
        },
    }
}

/// The state after a sequence of delta pixels, and the blocks emitted for them.
pub open spec fn scan<const CHANNELS: usize>(deltas: Seq<Seq<i16>>, palette: Seq<Seq<i16>>) -> (
    EncoderState,
    Seq<Token>,
)
    decreases deltas.len(),
{
    if deltas.len() == 0 {
        (start(CHANNELS as nat), Seq::empty())
    } else {
        let (state, tokens) = scan::<CHANNELS>(deltas.drop_last(), palette);
        (step(state, deltas.last()), tokens + step_tokens::<CHANNELS>(state, deltas.last(), palette))
    }
}

/// The blocks of the body: those emitted during the scan, and the run left open at
/// its end.
pub open spec fn body_tokens<const CHANNELS: usize>(
    deltas: Seq<Seq<i16>>,
    palette: Seq<Seq<i16>>,
) -> Seq<Token> {
    let (state, tokens) = scan::<CHANNELS>(deltas, palette);
    tokens + flush(state.repeating)
}

/// The bits of the stream of an image: header, then body.
pub open spec fn stream_bits<const CHANNELS: usize>(raw: Seq<u8>, width: u32, height: u32) -> Seq<
    bool,
> {
    let palette = palette_of(raw, CHANNELS as nat);
    header_bits::<CHANNELS>(width, height, palette) + tokens_bits::<CHANNELS>(
        body_tokens::<CHANNELS>(deltas_of(raw, CHANNELS as nat), palette),
    )
}

/// The stream of an image, as bytes.
pub open spec fn encoded<const CHANNELS: usize>(raw: Seq<u8>, width: u32, height: u32) -> Seq<u8> {
    pack(stream_bits::<CHANNELS>(raw, width, height))
}

/// One more block at the end: its bits follow, and its kind counts one more.
pub proof fn lemma_push_token<const CHANNELS: usize>(tokens: Seq<Token>, token: Token)
    ensures
        tokens_bits::<CHANNELS>(tokens.push(token)) == tokens_bits::<CHANNELS>(tokens)
            + token_bits::<CHANNELS>(token),
        forall|typ: Typ<CHANNELS>| #[trigger]
            count_of(tokens.push(token), typ) == count_of(tokens, typ) + if typ_of::<CHANNELS>(
                token,
            ) == typ {
                1nat
            } else {
                0nat
            },
{
    assert(tokens.push(token).drop_last() =~= tokens);
}

/// The scan in progress: the state carried from pixel to pixel, the buffer, and the
/// statistics.
struct Scan<const CHANNELS: usize> {
    offsets: [Pixel<CHANNELS>; 64],
    previous_hash: usize,
    repeating: usize,
    buffer: Buffer,
    logger: Logger,
}

impl<const CHANNELS: usize> Scan<CHANNELS> {
    /// The state carried from pixel to pixel.
    spec fn state(&self) -> EncoderState {
        EncoderState {
            offsets: table(self.offsets@),
            previous_hash: self.previous_hash as int,
            repeating: self.repeating as nat,
        }
    }

    /// The buffer holds `head` and then `tokens`, and the statistics count `tokens`.
    spec fn holds(&self, head: Seq<bool>, tokens: Seq<Token>) -> bool {
        &&& self.previous_hash < 64
        &&& self.repeating <= 64
        &&& self.buffer.wf()
        &&& self.buffer@ == head + tokens_bits::<CHANNELS>(tokens)
        &&& self.logger.counts::<CHANNELS>(tokens)
    }

    /// Writes one block and counts it.
    fn emit(
        &mut self,
        block: blocks::Block,
        typ: Typ<CHANNELS>,
        Ghost(head): Ghost<Seq<bool>>,
        Ghost(tokens): Ghost<Seq<Token>>,
        Ghost(token): Ghost<Token>,
    )
        requires
            old(self).holds(head, tokens),
            tokens.len() < usize::MAX,
            block.bit_count <= 56,
            block@ == token_bits::<CHANNELS>(token),
            typ == typ_of::<CHANNELS>(token),
        ensures
            final(self).holds(head, tokens.push(token)),
            final(self).offsets == old(self).offsets,
            final(self).previous_hash == old(self).previous_hash,
            final(self).repeating == old(self).repeating,
    {
        proof {
            lemma_push_token::<CHANNELS>(tokens, token);
            lemma_count_bound(tokens, typ);
        }
        self.buffer.push(block);
        match typ {
            Typ::Short => {
                self.logger.short += 1;
            },
            Typ::Medium => {
                self.logger.medium += 1;
            },
            Typ::Long => {
                self.logger.long += 1;
            },
            Typ::Repeating => {
                self.logger.repeating += 1;
            },
            Typ::Color => {
                self.logger.palette += 1;
            },
            Typ::Gray => {
                self.logger.gray += 1;
            },
            Typ::Offset => {
                self.logger.offset += 1;
            },
        }
        assert(head + tokens_bits::<CHANNELS>(tokens) + token_bits::<CHANNELS>(token) =~= head + (
        tokens_bits::<CHANNELS>(tokens) + token_bits::<CHANNELS>(token)));
    }

    /// Writes the block for a delta pixel outside a run.
    fn emit_chosen(
        &mut self,
        pixel: &Pixel<CHANNELS>,
        hashed: usize,
        palette: &Palette<CHANNELS>,
        Ghost(head): Ghost<Seq<bool>>,
        Ghost(tokens): Ghost<Seq<Token>>,
    )
        requires
            CHANNELS == 3 || CHANNELS == 4,
            old(self).holds(head, tokens),
            tokens.len() < usize::MAX,
            palette@.len() <= 16,
            hashed == hash_of(pixel@),
        ensures
            final(self).holds(
                head,
                tokens.push(chosen::<CHANNELS>(old(self).state(), pixel@, palette@)),
            ),
            final(self).offsets == old(self).offsets,
            final(self).previous_hash == old(self).previous_hash,
            final(self).repeating == old(self).repeating,
    {
        let ghost token = chosen::<CHANNELS>(self.state(), pixel@, palette@);
        proof {
            lemma_index_of_some(palette@, pixel@);
            assert(table(self.offsets@)[hashed as int] == self.offsets@[hashed as int]@);
        }
        match palette.get(pixel) {
            Some(color) => {
                self.emit(
                    blocks::Color::encode(color),
                    Typ::Color,
                    Ghost(head),
                    Ghost(tokens),
                    Ghost(token),
                );
            },
            None => {
                if self.offsets[hashed] == *pixel {
                    self.emit(
                        blocks::Offset::encode(hashed),
                        Typ::Offset,
                        Ghost(head),
                        Ghost(tokens),
                        Ghost(token),
                    );
                } else {
                    let block = blocks::Pixel::encode(pixel);
                    let typ: Typ<CHANNELS> = if block.bit_count == Typ::<CHANNELS>::Short.size() {
                        Typ::Short
                    } else if block.bit_count == Typ::<CHANNELS>::Medium.size() {
                        Typ::Medium
                    } else {
                        Typ::Long
                    };
                    self.emit(block, typ, Ghost(head), Ghost(tokens), Ghost(token));
                }
            },
        }
    }

    /// Takes one delta pixel in: lengthens the run, or closes it and writes the block
    /// for the pixel.
    fn advance(
        &mut self,
        pixel: &Pixel<CHANNELS>,
        palette: &Palette<CHANNELS>,
        Ghost(head): Ghost<Seq<bool>>,
        Ghost(tokens): Ghost<Seq<Token>>,
    )
        requires
            CHANNELS == 3 || CHANNELS == 4,
            old(self).holds(head, tokens),
            tokens.len() + 2 <= usize::MAX,
            palette@.len() <= 16,
        ensures
            final(self).holds(
                head,
                tokens + step_tokens::<CHANNELS>(old(self).state(), pixel@, palette@),
            ),
            final(self).state() == step(old(self).state(), pixel@),
    {
        let hashed = pixel.hash();
        let ghost before = self.state();
        let ghost emitted = step_tokens::<CHANNELS>(before, pixel@, palette@);
        proof {
            assert(table(self.offsets@)[self.previous_hash as int]
                == self.offsets@[self.previous_hash as int]@);
        }
        if self.offsets[self.previous_hash] == *pixel {
            if self.repeating < blocks::Repeating::MAX {
                self.repeating += 1;
                assert(tokens + emitted =~= tokens);
            } else {
                self.emit(
                    blocks::Repeating::encode(self.repeating),
                    Typ::Repeating,
                    Ghost(head),
                    Ghost(tokens),
                    Ghost(Token::Repeat(64)),
                );
                self.repeating = 1;
                assert(tokens + emitted =~= tokens.push(Token::Repeat(64)));
            }
        } else {
            let ghost mut flushed = tokens;
            if self.repeating > 0 {
                self.emit(
                    blocks::Repeating::encode(self.repeating),
                    Typ::Repeating,
                    Ghost(head),
                    Ghost(tokens),
                    Ghost(Token::Repeat(self.repeating as nat)),
                );
                proof {
                    flushed = tokens.push(Token::Repeat(self.repeating as nat));
                }
                self.repeating = 0;
            }
            assert(flushed == tokens + flush(before.repeating));
            assert(self.state().offsets == before.offsets);
            self.emit_chosen(pixel, hashed, palette, Ghost(head), Ghost(flushed));
            assert(tokens + emitted =~= flushed.push(
                chosen::<CHANNELS>(before, pixel@, palette@),
            ));
        }
        self.offsets[hashed] = *pixel;
        self.previous_hash = hashed;
        assert(table(self.offsets@) =~= step(before, pixel@).offsets);
    }
}

/// The encoder for images of `CHANNELS` channels.
pub struct Encoder<const CHANNELS: usize>;

impl<const CHANNELS: usize> Encoder<CHANNELS> {
    /// The stream of an image, and the number of blocks of each kind in its body.
    pub fn encode_with_logger(raw: &[u8], width: usize, height: usize) -> (out: Result<
        (Logger, Vec<u8>),
        EncodeError,
    >)
        requires
            CHANNELS == 3 || CHANNELS == 4,
        ensures
            match out {
                Ok((logger, bytes)) => {
                    &&& width <= u32::MAX
                    &&& height <= u32::MAX
                    &&& raw@.len() == width * height * CHANNELS
                    &&& bytes@ == encoded::<CHANNELS>(raw@, width as u32, height as u32)
                    &&& logger.counts::<CHANNELS>(
                        body_tokens::<CHANNELS>(
                            deltas_of(raw@, CHANNELS as nat),
                            palette_of(raw@, CHANNELS as nat),
                        ),
                    )
                },
                Err(EncodeError::DimensionsOverflow) => width > u32::MAX || height > u32::MAX,
                Err(EncodeError::LengthMismatch) => width <= u32::MAX && height <= u32::MAX
                    && raw@.len() != width * height * CHANNELS,
            },
    {
        if width > 0xffff_ffff || height > 0xffff_ffff {
            return Err(EncodeError::DimensionsOverflow);
        }
        assert(width * height <= 0xffff_ffff * 0xffff_ffff) by (nonlinear_arith)
            requires
                width <= 0xffff_ffff,
                height <= 0xffff_ffff,
        ;
        assert(width * height * CHANNELS <= 0xffff_ffff * 0xffff_ffff * 4) by (nonlinear_arith)
            requires
                0 <= width * height <= 0xffff_ffff * 0xffff_ffff,
                CHANNELS <= 4,
        ;
        let expected: u128 = (width as u128) * (height as u128) * (CHANNELS as u128);
        if raw.len() as u128 != expected {
            return Err(EncodeError::LengthMismatch);
        }
        let ghost c = CHANNELS as nat;
        let ghost deltas = deltas_of(raw@, c);
        let len = raw.len();
        let count = len / CHANNELS;
        proof {
            vstd::arithmetic::div_mod::lemma_fundamental_div_mod(len as int, CHANNELS as int);
            vstd::arithmetic::div_mod::lemma_div_multiples_vanish(
                width * height,
                CHANNELS as int,
            );
            assert(width * height * CHANNELS == CHANNELS * (width * height)) by (nonlinear_arith);
            assert(count * CHANNELS == len) by (nonlinear_arith)
                requires
                    count == width * height,
                    len == width * height * CHANNELS,
            ;
        }
        let image = Image::<CHANNELS>::new(raw, width, height);
        let ghost palette = image.palette@;
        let header = Header::new(width, height, &image.palette);
        let mut buffer = Buffer::from_header(header);
        buffer.bytes.reserve(count);
        let ghost head = header_bits::<CHANNELS>(width as u32, height as u32, palette);
        let mut run = Scan::<CHANNELS> {
            offsets: [Pixel::<CHANNELS>::zeros();64],
            previous_hash: 0,
            repeating: 0,
            buffer,
            logger: Logger::new(),
        };
        let zeros = [0u8;CHANNELS];
        let mut previous_chunk: &[u8] = zeros.as_slice();
        let mut k: usize = 0;
        let mut at: usize = 0;
        let ghost mut tokens: Seq<Token> = Seq::empty();
        proof {
            assert(deltas.take(0) =~= Seq::<Seq<i16>>::empty());
            assert(table(run.offsets@) =~= start(c).offsets);
            assert(previous_chunk@ =~= pixel_before(raw@, c, 0));
            assert(head + tokens_bits::<CHANNELS>(tokens) =~= head);
            assert(0 * CHANNELS == 0) by (nonlinear_arith);
        }
        while k < count
            invariant
                CHANNELS == 3 || CHANNELS == 4,
                c == CHANNELS,
                k <= count,
                len == raw@.len(),
                count * CHANNELS == len,
                at == k * CHANNELS,
                deltas == deltas_of(raw@, c),
                deltas.len() == count,
                palette == image.palette@,
                palette.len() <= 16,
                (run.state(), tokens) == scan::<CHANNELS>(deltas.take(k as int), palette),
                run.holds(head, tokens),
                previous_chunk@ == pixel_before(raw@, c, k as int),
                tokens.len() <= 2 * k,
            decreases count - k,
        {
            proof {
                assert((k + 1) * CHANNELS == k * CHANNELS + CHANNELS) by (nonlinear_arith);
                assert((k + 1) * CHANNELS <= count * CHANNELS) by (nonlinear_arith)
                    requires
                        k + 1 <= count,
                ;
            }
            let current = slice_subrange(raw, at, at + CHANNELS);
            let pixel = Pixel::<CHANNELS>::compute_forward(previous_chunk, current);
            proof {
                assert(current@ == pixel_at(raw@, c, k as int));
                assert(deltas[k as int] == pixel@);
                assert(deltas.take(k + 1).drop_last() =~= deltas.take(k as int));
                assert(deltas.take(k + 1).last() == pixel@);
            }
            let ghost before = run.state();
            run.advance(&pixel, &image.palette, Ghost(head), Ghost(tokens));
            proof {
                tokens = tokens + step_tokens::<CHANNELS>(before, pixel@, palette);
            }
            previous_chunk = current;
            at = at + CHANNELS;
            k += 1;
        }
        proof {
            assert(deltas.take(count as int) =~= deltas);
        }
        if run.repeating > 0 {
            run.emit(
                blocks::Repeating::encode(run.repeating),
                Typ::Repeating,
                Ghost(head),
                Ghost(tokens),
                Ghost(Token::Repeat(run.repeating as nat)),
            );
            assert(tokens + flush(run.repeating as nat) =~= tokens.push(
                Token::Repeat(run.repeating as nat),
            ));
        } else {
            assert(tokens + flush(run.repeating as nat) =~= tokens);
        }
        proof {
            run.buffer.lemma_bytes_are_packed();
        }
        Ok((run.logger, run.buffer.bytes))
    }

    /// The stream of an image of `width` times `height` pixels, given as `CHANNELS` bytes
    /// per pixel, row by row.
    pub fn encode(raw: &[u8], width: usize, height: usize) -> (out: Result<Vec<u8>, EncodeError>)
        requires
            CHANNELS == 3 || CHANNELS == 4,
        ensures
            match out {
                Ok(bytes) => {
                    &&& width <= u32::MAX
                    &&& height <= u32::MAX
                    &&& raw@.len() == width * height * CHANNELS
                    &&& bytes@ == encoded::<CHANNELS>(raw@, width as u32, height as u32)
                },
                Err(EncodeError::DimensionsOverflow) => width > u32::MAX || height > u32::MAX,
                Err(EncodeError::LengthMismatch) => width <= u32::MAX && height <= u32::MAX
                    && raw@.len() != width * height * CHANNELS,
            },
    {
        match Self::encode_with_logger(raw, width, height) {
            Ok((_, bytes)) => Ok(bytes),
            Err(e) => Err(e),
        }
    }
}

} // verus!
