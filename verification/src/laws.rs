//! What holds of the codec as a whole.
use crate::bits::{
    bits_of, bytes_bits, lemma_bits_mask, lemma_bits_of_pack, lemma_bits_value_of, low_mask, pack,
    padded, padding_len, zeros,
};
use crate::blocks::{blocks_bits, lemma_sign_extended_idempotent, sign_extended, Block, Typ};
use crate::buffer::read;
use crate::decoder::{apply, decoded, decoded_any, emitted, replay, DecoderState};
use crate::encoder::{
    body_tokens, chosen, encoded, flush, in_run, scan, start, step, step_tokens, stream_bits,
    EncoderState,
};
use crate::error::DecodeError;
use crate::framing::{
    body_wf, lemma_parse_body, lemma_parse_header, lemma_prefix, lemma_small_words,
};
use crate::img::{backward, forward, hash_of, zero_pixel};
use crate::palette::{is_delta, lemma_index_of_some, lemma_palette_entries, palette_of};
use crate::stream::{
    deltas_of, header_bits, padded_palette, pixel_at, pixel_before, token_wf, tokens_bits, undelta,
    Token,
};
use vstd::prelude::*;

verus! {

/// The backward transform undoes the forward transform.
pub proof fn delta_is_invertible(previous: Seq<u8>, current: Seq<u8>, c: nat)
    requires
        previous.len() == c,
        current.len() == c,
    ensures
        backward(previous, forward(previous, current, c)) == current,
        is_delta(forward(previous, current, c), c),
{
    assert(backward(previous, forward(previous, current, c)) =~= current);
}

/// Every delta pixel of an image is the difference of two pixels.
pub proof fn lemma_deltas_are_deltas(raw: Seq<u8>, c: nat)
    requires
        c > 0,
    ensures
        forall|k: int| 0 <= k < deltas_of(raw, c).len() ==> is_delta(#[trigger] deltas_of(raw, c)[k], c),
{
}

/// The inverse delta gives the image back, pixel by pixel.
pub proof fn lemma_undelta_deltas(raw: Seq<u8>, c: nat, k: nat)
    requires
        c > 0,
        k * c <= raw.len(),
    ensures
        k <= deltas_of(raw, c).len(),
        undelta(deltas_of(raw, c).take(k as int), c) == raw.take((k * c) as int),
    decreases k,
{
    let deltas = deltas_of(raw, c);
    assert(k <= raw.len() / c) by {
        vstd::arithmetic::div_mod::lemma_div_is_ordered((k * c) as int, raw.len() as int, c as int);
        vstd::arithmetic::div_mod::lemma_div_multiples_vanish(k as int, c as int);
        assert(k * c == c * k) by (nonlinear_arith);
    }
    if k == 0 {
        assert(0 * c == 0) by (nonlinear_arith);
        assert(raw.take(0) =~= Seq::<u8>::empty());
    } else {
        assert((k - 1) * c + c == k * c) by (nonlinear_arith);
        assert((k - 1) * c >= 0) by (nonlinear_arith)
            requires
                k >= 1,
        ;
        lemma_undelta_deltas(raw, c, (k - 1) as nat);
        let head = deltas.take(k as int);
        assert(head.drop_last() =~= deltas.take(k - 1));
        assert(head.last() == deltas[k - 1]);
        let before = raw.take((k - 1) * c);
        let current = pixel_at(raw, c, k - 1);
        let previous = pixel_before(raw, c, k - 1);
        if k > 1 {
            assert((k - 2) * c + c == (k - 1) * c) by (nonlinear_arith);
            assert((k - 2) * c >= 0) by (nonlinear_arith)
                requires
                    k >= 2,
            ;
            assert(before.subrange(before.len() - c, before.len() as int) =~= previous);
        }
        delta_is_invertible(previous, current, c);
        assert(before + current =~= raw.take((k * c) as int));
    }
}

/// Encoder and decoder in step after the same pixels: the same offset table, the
/// decoder's previous delta pixel in the slot of the encoder's previous hash, and the
/// pixels decoded so far, with the open run, the pixels encoded so far.
pub open spec fn in_step(
    enc: EncoderState,
    dec: DecoderState,
    out: Seq<Seq<i16>>,
    deltas: Seq<Seq<i16>>,
) -> bool {
    &&& enc.offsets.len() == 64
    &&& 0 <= enc.previous_hash < 64
    &&& enc.repeating <= 64
    &&& dec.offsets == enc.offsets
    &&& dec.previous == enc.offsets[enc.previous_hash]
    &&& hash_of(dec.previous) == enc.previous_hash
    &&& out + Seq::new(enc.repeating, |i: int| dec.previous) == deltas
}

/// One more block, replayed.
pub proof fn lemma_replay_push(tokens: Seq<Token>, token: Token, palette: Seq<Seq<i16>>, c: nat)
    ensures
        replay(tokens.push(token), palette, c) == (
            apply(replay(tokens, palette, c).0, token, palette),
            replay(tokens, palette, c).1 + emitted(replay(tokens, palette, c).0, token, palette),
        ),
{
    assert(tokens.push(token).drop_last() =~= tokens);
}

/// One pixel keeps encoder and decoder in step, and the blocks emitted for it can
/// stand in a body.
pub proof fn lemma_step_keeps_in_step<const CHANNELS: usize>(
    enc: EncoderState,
    tokens: Seq<Token>,
    deltas: Seq<Seq<i16>>,
    delta: Seq<i16>,
    palette: Seq<Seq<i16>>,
)
    requires
        CHANNELS == 3 || CHANNELS == 4,
        palette.len() <= 16,
        is_delta(delta, CHANNELS as nat),
        body_wf::<CHANNELS>(tokens),
        ({
            let (dec, out) = replay(tokens, padded_palette(palette, CHANNELS as nat), CHANNELS as nat);
            in_step(enc, dec, out, deltas)
        }),
    ensures
        ({
            let next = tokens + step_tokens::<CHANNELS>(enc, delta, palette);
            let (dec, out) = replay(next, padded_palette(palette, CHANNELS as nat), CHANNELS as nat);
            &&& in_step(step(enc, delta), dec, out, deltas.push(delta))
            &&& body_wf::<CHANNELS>(next)
        }),
{
    let c = CHANNELS as nat;
    let padded = padded_palette(palette, c);
    let (dec, out) = replay(tokens, padded, c);
    let emitted_tokens = step_tokens::<CHANNELS>(enc, delta, palette);
    let next = tokens + emitted_tokens;
    let after = step(enc, delta);
    let run = Seq::new(enc.repeating, |i: int| dec.previous);
    if in_run(enc, delta) {
        assert(after.offsets =~= enc.offsets);
        if enc.repeating < 64 {
            assert(next =~= tokens);
            assert(out + Seq::new(after.repeating, |i: int| dec.previous) =~= (out + run).push(
                delta,
            ));
        } else {
            let token = Token::Repeat(64);
            assert(next =~= tokens.push(token));
            lemma_replay_push(tokens, token, padded, c);
            assert(out + run + Seq::new(1, |i: int| dec.previous) =~= (out + run).push(delta));
        }
    } else {
        let flushed = tokens + flush(enc.repeating);
        let token = chosen::<CHANNELS>(enc, delta, palette);
        assert(next =~= flushed.push(token));
        if enc.repeating > 0 {
            assert(flushed =~= tokens.push(Token::Repeat(enc.repeating)));
            lemma_replay_push(tokens, Token::Repeat(enc.repeating), padded, c);
        } else {
            assert(flushed =~= tokens);
            assert(out + run =~= out);
        }
        let (dec1, out1) = replay(flushed, padded, c);
        assert(dec1 == dec);
        assert(out1 =~= out + run);
        lemma_replay_push(flushed, token, padded, c);
        lemma_index_of_some(palette, delta);
        assert(emitted(dec1, token, padded) =~= seq![delta]);
        assert(apply(dec1, token, padded).offsets =~= after.offsets);
        assert(out1 + seq![delta] + Seq::new(0, |i: int| delta) =~= deltas.push(delta));
        assert(token_wf::<CHANNELS>(token));
    }
    assert(body_wf::<CHANNELS>(next)) by {
        assert forall|i: int| 0 <= i < next.len() implies token_wf::<CHANNELS>(#[trigger] next[i])
            && !(next[i] is Gray) by {
            if i < tokens.len() {
                assert(next[i] == tokens[i]);
            } else {
                assert(next[i] == emitted_tokens[i - tokens.len()]);
            }
        }
    }
}

/// After any pixels, encoder and decoder are in step: what the encoder emitted, the
/// decoder replays to the same offset table and to the same pixels but for the open run.
pub proof fn encoder_and_decoder_in_step<const CHANNELS: usize>(
    deltas: Seq<Seq<i16>>,
    palette: Seq<Seq<i16>>,
)
    requires
        CHANNELS == 3 || CHANNELS == 4,
        palette.len() <= 16,
        forall|k: int| 0 <= k < deltas.len() ==> is_delta(#[trigger] deltas[k], CHANNELS as nat),
    ensures
        ({
            let (enc, tokens) = scan::<CHANNELS>(deltas, palette);
            let (dec, out) = replay(tokens, padded_palette(palette, CHANNELS as nat), CHANNELS as nat);
            &&& in_step(enc, dec, out, deltas)
            &&& body_wf::<CHANNELS>(tokens)
        }),
    decreases deltas.len(),
{
    let c = CHANNELS as nat;
    if deltas.len() == 0 {
        let enc = start(c);
        let (dec, out) = replay(Seq::<Token>::empty(), padded_palette(palette, c), c);
        assert(out + Seq::new(0, |i: int| dec.previous) =~= deltas);
    } else {
        let head = deltas.drop_last();
        encoder_and_decoder_in_step::<CHANNELS>(head, palette);
        let (enc, tokens) = scan::<CHANNELS>(head, palette);
        assert(is_delta(deltas.last(), c));
        lemma_step_keeps_in_step::<CHANNELS>(enc, tokens, head, deltas.last(), palette);
        assert(head.push(deltas.last()) =~= deltas);
    }
}

/// The body of an image can be read, and replays to the delta pixels of the image.
pub proof fn lemma_body_replays<const CHANNELS: usize>(
    deltas: Seq<Seq<i16>>,
    palette: Seq<Seq<i16>>,
)
    requires
        CHANNELS == 3 || CHANNELS == 4,
        palette.len() <= 16,
        forall|k: int| 0 <= k < deltas.len() ==> is_delta(#[trigger] deltas[k], CHANNELS as nat),
    ensures
        body_wf::<CHANNELS>(body_tokens::<CHANNELS>(deltas, palette)),
        replay(
            body_tokens::<CHANNELS>(deltas, palette),
            padded_palette(palette, CHANNELS as nat),
            CHANNELS as nat,
        ).1 == deltas,
{
    let c = CHANNELS as nat;
    let padded = padded_palette(palette, c);
    encoder_and_decoder_in_step::<CHANNELS>(deltas, palette);
    let (enc, tokens) = scan::<CHANNELS>(deltas, palette);
    let (dec, out) = replay(tokens, padded, c);
    let body = body_tokens::<CHANNELS>(deltas, palette);
    if enc.repeating > 0 {
        let token = Token::Repeat(enc.repeating);
        assert(body =~= tokens.push(token));
        lemma_replay_push(tokens, token, padded, c);
        assert forall|i: int| 0 <= i < body.len() implies token_wf::<CHANNELS>(#[trigger] body[i])
            && !(body[i] is Gray) by {
            if i < tokens.len() {
                assert(body[i] == tokens[i]);
            }
        }
    } else {
        assert(body =~= tokens);
        assert(out + Seq::new(0, |i: int| dec.previous) =~= out);
    }
}

/// The body of any image holds only blocks that a stream can hold: pixels within the
/// width of their kind, palette indices below 16, slots below 64, runs of 1 to 64
/// pixels, and no gray block.
pub proof fn body_of_an_image_is_well_formed<const CHANNELS: usize>(raw: Seq<u8>)
    requires
        CHANNELS == 3 || CHANNELS == 4,
    ensures
        body_wf::<CHANNELS>(
            body_tokens::<CHANNELS>(
                deltas_of(raw, CHANNELS as nat),
                palette_of(raw, CHANNELS as nat),
            ),
        ),
{
    lemma_palette_entries(raw, CHANNELS as nat);
    lemma_deltas_are_deltas(raw, CHANNELS as nat);
    lemma_body_replays::<CHANNELS>(
        deltas_of(raw, CHANNELS as nat),
        palette_of(raw, CHANNELS as nat),
    );
}

/// Round trip: what the encoder makes of an image, the decoder makes that image of.
pub proof fn round_trip<const CHANNELS: usize>(raw: Seq<u8>, width: u32, height: u32)
    requires
        CHANNELS == 3 || CHANNELS == 4,
        raw.len() == width * height * CHANNELS,
    ensures
        decoded::<CHANNELS>(encoded::<CHANNELS>(raw, width, height)) == Ok::<
            (Seq<u8>, u32, u32),
            DecodeError,
        >((raw, width, height)),
{
    reveal(decoded);
    let c = CHANNELS as nat;
    let palette = palette_of(raw, c);
    let deltas = deltas_of(raw, c);
    let tokens = body_tokens::<CHANNELS>(deltas, palette);
    let header = header_bits::<CHANNELS>(width, height, palette);
    let body = tokens_bits::<CHANNELS>(tokens);
    let stream = stream_bits::<CHANNELS>(raw, width, height);
    let bytes = encoded::<CHANNELS>(raw, width, height);
    let bits = bytes_bits(bytes);
    let pad = padding_len(stream.len());
    lemma_palette_entries(raw, c);
    lemma_deltas_are_deltas(raw, c);
    lemma_body_replays::<CHANNELS>(deltas, palette);
    lemma_bits_of_pack(stream);
    assert(bits =~= header + (body + zeros(pad)));
    assert(bits =~= header + body + zeros(pad));
    lemma_parse_header::<CHANNELS>(width, height, palette, body + zeros(pad));
    lemma_parse_body::<CHANNELS>(header, tokens, pad);
    let count = (width * height) as nat;
    assert(raw.len() == count * c) by (nonlinear_arith)
        requires
            raw.len() == width * height * CHANNELS,
            count == width * height,
            c == CHANNELS,
    ;
    lemma_undelta_deltas(raw, c, count);
    assert(deltas.len() == count) by {
        vstd::arithmetic::div_mod::lemma_div_multiples_vanish(count as int, c as int);
        assert(count * c == c * count) by (nonlinear_arith);
    }
    assert(deltas.take(count as int) =~= deltas);
    assert(raw.take((count * c) as int) =~= raw);
}

/// The first bit of a stream is its alpha flag, the next 32 bits are its width, the 32
/// bits after them its height.
pub proof fn header_framing<const CHANNELS: usize>(raw: Seq<u8>, width: u32, height: u32)
    requires
        CHANNELS == 3 || CHANNELS == 4,
    ensures
        ({
            let bytes = encoded::<CHANNELS>(raw, width, height);
            let bits = bytes_bits(bytes);
            &&& bytes.len() >= 9
            &&& bits[0] == (CHANNELS == 4)
            &&& read(bits, 1, 32) == Some(width as nat)
            &&& read(bits, 33, 32) == Some(height as nat)
        }),
{
    let stream = stream_bits::<CHANNELS>(raw, width, height);
    let bits = bytes_bits(encoded::<CHANNELS>(raw, width, height));
    lemma_bits_of_pack(stream);
    assert(stream.len() >= 65);
    assert(bits.subrange(1, 33) =~= bits_of(width as u64, 32));
    assert(bits.subrange(33, 65) =~= bits_of(height as u64, 32));
    lemma_small_words(width as u64);
    lemma_small_words(height as u64);
    lemma_bits_value_of(width as u64, 32);
    lemma_bits_value_of(height as u64, 32);
    lemma_prefix(Typ::<CHANNELS>::Color);
    lemma_prefix(Typ::<CHANNELS>::Short);
    assert(Typ::<CHANNELS>::Color.prefix()[1] == bits_of(1, 1)[0]);
    assert(Typ::<CHANNELS>::Short.prefix()[1] == bits_of(0, 1)[0]);
    assert(bits[0] == stream[0]);
}

/// Round trip of an RGB image through the decoder that takes the number of channels
/// from the alpha flag.
pub proof fn round_trip_rgb(raw: Seq<u8>, width: u32, height: u32)
    requires
        raw.len() == width * height * 3,
    ensures
        decoded_any(encoded::<3>(raw, width, height)) == Ok::<(Seq<u8>, u32, u32), DecodeError>(
            (raw, width, height),
        ),
{
    header_framing::<3>(raw, width, height);
    round_trip::<3>(raw, width, height);
}

/// Round trip of an RGBA image through the decoder that takes the number of channels
/// from the alpha flag.
pub proof fn round_trip_rgba(raw: Seq<u8>, width: u32, height: u32)
    requires
        raw.len() == width * height * 4,
    ensures
        decoded_any(encoded::<4>(raw, width, height)) == Ok::<(Seq<u8>, u32, u32), DecodeError>(
            (raw, width, height),
        ),
{
    header_framing::<4>(raw, width, height);
    round_trip::<4>(raw, width, height);
}

/// No prefix code is the beginning of another.
pub proof fn prefix_codes_are_prefix_free<const CHANNELS: usize>(
    one: Typ<CHANNELS>,
    other: Typ<CHANNELS>,
)
    requires
        one != other,
    ensures
        !one.prefix().is_prefix_of(other.prefix()),
{
    lemma_prefix(one);
    lemma_prefix(other);
    if one.prefix().is_prefix_of(other.prefix()) {
        let cut = other.prefix().subrange(0, one.prefix().len() as int);
        assert(one.prefix() == cut);
        assert(one.prefix()[0] == cut[0]);
        assert(one.prefix()[1] == cut[1]);
        if one.prefix().len() >= 3 {
            assert(one.prefix()[2] == cut[2]);
        }
        if one.prefix().len() >= 4 {
            assert(one.prefix()[3] == cut[3]);
        }
    }
}

/// The bits of blocks one after the other.
pub proof fn lemma_blocks_bits_concat(a: Seq<Block>, b: Seq<Block>)
    ensures
        blocks_bits(a + b) == blocks_bits(a) + blocks_bits(b),
    decreases b.len(),
{
    if b.len() == 0 {
        assert(a + b =~= a);
        assert(blocks_bits(a) + blocks_bits(b) =~= blocks_bits(a));
    } else {
        assert((a + b).drop_last() =~= a + b.drop_last());
        assert((a + b).last() == b.last());
        lemma_blocks_bits_concat(a, b.drop_last());
        assert(blocks_bits(a) + blocks_bits(b.drop_last()) + b.last()@ =~= blocks_bits(a) + (
        blocks_bits(b.drop_last()) + b.last()@));
    }
}

/// What a writer was given, a reader gives back: from the bytes that hold the blocks
/// pushed one after the other, a read at the place of block `i`, of as many bits as it
/// has, is its value.
pub proof fn blocks_pushed_are_read(blocks: Seq<Block>, i: int)
    requires
        0 <= i < blocks.len(),
        blocks[i].bit_count <= 56,
    ensures
        read(
            bytes_bits(pack(blocks_bits(blocks))),
            blocks_bits(blocks.take(i)).len(),
            blocks[i].bit_count as nat,
        ) == Some((blocks[i].value & low_mask(blocks[i].bit_count as u64)) as nat),
        blocks[i].canonical() ==> blocks[i].value & low_mask(blocks[i].bit_count as u64)
            == blocks[i].value,
{
    let stream = blocks_bits(blocks);
    let bits = bytes_bits(pack(stream));
    let block = blocks[i];
    let n = block.bit_count as nat;
    let head = blocks.take(i);
    let tail = blocks.skip(i + 1);
    lemma_bits_of_pack(stream);
    assert(blocks =~= head + (seq![block] + tail));
    lemma_blocks_bits_concat(head, seq![block] + tail);
    lemma_blocks_bits_concat(seq![block], tail);
    assert(blocks_bits(seq![block]) =~= block@) by {
        reveal_with_fuel(blocks_bits, 2);
        assert(seq![block].drop_last().len() == 0);
        assert(seq![block].last() == block);
    }
    let at = blocks_bits(head).len();
    assert(bits.subrange(at as int, (at + n) as int) =~= block@);
    lemma_bits_mask(block.value, n);
    lemma_bits_value_of(block.value & low_mask(n as u64), n);
    if block.canonical() {
        block.lemma_canonical_value();
    }
}

/// Extending the sign twice is extending it once.
pub proof fn sign_extension_is_idempotent(raw: u64, width: u64)
    requires
        1 <= width <= 64,
    ensures
        sign_extended(sign_extended(raw, width), width) == sign_extended(raw, width),
{
    lemma_sign_extended_idempotent(raw, width);
}

/// `count` runs of 64 pixels.
pub open spec fn full_runs(count: nat) -> Seq<Token> {
    Seq::new(count, |i: int| Token::Repeat(64))
}

/// The blocks of `n` pixels in a run: runs of 64, and a last run of what is left.
pub open spec fn runs_of(n: nat) -> Seq<Token> {
    if n == 0 {
        Seq::empty()
    } else {
        full_runs(((n - 1) / 64) as nat).push(Token::Repeat(((n - 1) % 64 + 1) as nat))
    }
}

/// Pixels that repeat the previous delta pixel only lengthen the run, or close it at
/// 64 and open the next one.
pub proof fn lemma_scan_run<const CHANNELS: usize>(
    deltas: Seq<Seq<i16>>,
    palette: Seq<Seq<i16>>,
    delta: Seq<i16>,
    more: nat,
)
    requires
        ({
            let enc = scan::<CHANNELS>(deltas, palette).0;
            &&& in_run(enc, delta)
            &&& hash_of(delta) == enc.previous_hash
            &&& enc.offsets.len() == 64
            &&& enc.repeating <= 64
            &&& enc.repeating + more >= 1
        }),
    ensures
        ({
            let (enc, tokens) = scan::<CHANNELS>(deltas, palette);
            let (after, all) = scan::<CHANNELS>(deltas + Seq::new(more, |i: int| delta), palette);
            let total = enc.repeating + more;
            &&& after.offsets == enc.offsets
            &&& after.previous_hash == enc.previous_hash
            &&& after.repeating == (total - 1) % 64 + 1
            &&& all == tokens + full_runs(((total - 1) / 64) as nat)
        }),
    decreases more,
{
    let (enc, tokens) = scan::<CHANNELS>(deltas, palette);
    let whole = deltas + Seq::new(more, |i: int| delta);
    let total = enc.repeating + more;
    if more == 0 {
        assert(whole =~= deltas);
        assert(tokens + full_runs(0) =~= tokens);
    } else {
        let head = deltas + Seq::new((more - 1) as nat, |i: int| delta);
        assert(whole.drop_last() =~= head);
        assert(whole.last() == delta);
        let (before, emitted_before) = scan::<CHANNELS>(head, palette);
        if total - 1 >= 1 {
            lemma_scan_run::<CHANNELS>(deltas, palette, delta, (more - 1) as nat);
        } else {
            assert(head =~= deltas);
            assert(tokens + full_runs(0) =~= tokens);
        }
        assert(in_run(before, delta));
        assert(step(before, delta).offsets =~= enc.offsets);
        let k = (if total - 1 >= 1 {
            (total - 2) / 64
        } else {
            0
        }) as nat;
        assert(emitted_before =~= tokens + full_runs(k));
        if before.repeating < 64 {
            assert(emitted_before + step_tokens::<CHANNELS>(before, delta, palette)
                =~= emitted_before);
        } else {
            assert(tokens + full_runs(k) + seq![Token::Repeat(64)] =~= tokens + full_runs(k + 1));
        }
    }
}

/// Run coalescing, for pixels that all have the same delta: after the block for the
/// first of them, `n` more make `ceil(n / 64)` runs and no other block.
pub proof fn run_coalescing<const CHANNELS: usize>(
    delta: Seq<i16>,
    palette: Seq<Seq<i16>>,
    n: nat,
)
    requires
        delta != zero_pixel(CHANNELS as nat),
    ensures
        body_tokens::<CHANNELS>(Seq::new(n + 1, |i: int| delta), palette) == seq![
            chosen::<CHANNELS>(start(CHANNELS as nat), delta, palette),
        ] + runs_of(n),
        runs_of(n).len() == (n + 63) / 64,
{
    let c = CHANNELS as nat;
    let first = seq![delta];
    let token = chosen::<CHANNELS>(start(c), delta, palette);
    reveal_with_fuel(scan, 2);
    assert(first.drop_last() =~= Seq::<Seq<i16>>::empty());
    let (enc, tokens) = scan::<CHANNELS>(first, palette);
    assert(!in_run(start(c), delta));
    assert(tokens =~= seq![token]);
    let all = Seq::new(n + 1, |i: int| delta);
    assert(all =~= first + Seq::new(n, |i: int| delta));
    if n == 0 {
        assert(all =~= first);
        assert(tokens + flush(0) =~= seq![token] + runs_of(0));
    } else {
        lemma_scan_run::<CHANNELS>(first, palette, delta, n);
        let k = ((n - 1) / 64) as nat;
        let last = Token::Repeat(((n - 1) % 64 + 1) as nat);
        assert(tokens + full_runs(k) + seq![last] =~= seq![token] + runs_of(n));
    }
}

/// Run coalescing, for an image that is black all over: its `n` pixels make
/// `ceil(n / 64)` runs and no other block.
pub proof fn run_coalescing_from_the_start<const CHANNELS: usize>(palette: Seq<Seq<i16>>, n: nat)
    ensures
        body_tokens::<CHANNELS>(Seq::new(n, |i: int| zero_pixel(CHANNELS as nat)), palette)
            == runs_of(n),
        runs_of(n).len() == (n + 63) / 64,
{
    let c = CHANNELS as nat;
    let zero = zero_pixel(c);
    let none = Seq::<Seq<i16>>::empty();
    let all = Seq::new(n, |i: int| zero);
    assert(all =~= none + Seq::new(n, |i: int| zero));
    if n == 0 {
        assert(all =~= none);
        assert(Seq::<Token>::empty() + flush(0) =~= runs_of(0));
    } else {
        lemma_scan_run::<CHANNELS>(none, palette, zero, n);
        let k = ((n - 1) / 64) as nat;
        let last = Token::Repeat(((n - 1) % 64 + 1) as nat);
        assert(Seq::<Token>::empty() + full_runs(k) + seq![last] =~= runs_of(n));
    }
}

/// Run coalescing, for an image of one colour that is not black: the first pixel and
/// the second each make a block of their own, since the delta of the second is zero
/// and that of the first is not; the `n` pixels after them make `ceil(n / 64)` runs.
pub proof fn run_coalescing_of_one_colour<const CHANNELS: usize>(
    first: Seq<i16>,
    palette: Seq<Seq<i16>>,
    n: nat,
)
    requires
        first != zero_pixel(CHANNELS as nat),
    ensures
        body_tokens::<CHANNELS>(
            seq![first] + Seq::new(n + 1, |i: int| zero_pixel(CHANNELS as nat)),
            palette,
        ) == seq![
            chosen::<CHANNELS>(start(CHANNELS as nat), first, palette),
            chosen::<CHANNELS>(
                step(start(CHANNELS as nat), first),
                zero_pixel(CHANNELS as nat),
                palette,
            ),
        ] + runs_of(n),
        runs_of(n).len() == (n + 63) / 64,
{
    let c = CHANNELS as nat;
    let zero = zero_pixel(c);
    let one = seq![first];
    let two = seq![first, zero];
    let a = chosen::<CHANNELS>(start(c), first, palette);
    let b = chosen::<CHANNELS>(step(start(c), first), zero, palette);
    reveal_with_fuel(scan, 3);
    assert(two.drop_last() =~= one);
    assert(one.drop_last() =~= Seq::<Seq<i16>>::empty());
    assert(!in_run(start(c), first));
    let (enc1, tokens1) = scan::<CHANNELS>(one, palette);
    assert(tokens1 =~= seq![a]);
    assert(!in_run(enc1, zero));
    let (enc2, tokens2) = scan::<CHANNELS>(two, palette);
    assert(tokens2 =~= seq![a, b]);
    let all = seq![first] + Seq::new(n + 1, |i: int| zero);
    assert(all =~= two + Seq::new(n, |i: int| zero));
    if n == 0 {
        assert(all =~= two);
        assert(tokens2 + flush(0) =~= seq![a, b] + runs_of(0));
    } else {
        lemma_scan_run::<CHANNELS>(two, palette, zero, n);
        let k = ((n - 1) / 64) as nat;
        let last = Token::Repeat(((n - 1) % 64 + 1) as nat);
        assert(tokens2 + full_runs(k) + seq![last] =~= seq![a, b] + runs_of(n));
    }
}

} // verus!
