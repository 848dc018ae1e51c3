//! What was written can be read: blocks, bodies and headers come back out of the bits
//! that they were laid down in.
use crate::bits::{
    bit, bits_of, bits_value, lemma_bits_of_value, lemma_bits_value_of, two_pow, zeros,
};
use crate::blocks::{lemma_channels_bits_len, lemma_pixel_of_channels_bits, pixel_bits, Typ};
use crate::buffer::{block_at, code_at, only_padding, read};
use crate::decoder::parse_body;
use crate::error::DecodeError;
use crate::palette::is_delta;
use crate::stream::{
    alpha_flag, header_bits, padded_palette, palette_bits, parse_header, parse_palette, payload_of,
    token_bits, token_of, token_wf, tokens_bits, typ_of, Token,
};
use vstd::prelude::*;

verus! {

/// The bits of the seven prefix codes.
proof fn lemma_code_bits()
    by (bit_vector)
    ensures
        !bit(0b00u64, 1u64) && !bit(0b00u64, 0u64),
        !bit(0b01u64, 1u64) && bit(0b01u64, 0u64),
        bit(0b100u64, 2u64) && !bit(0b100u64, 1u64) && !bit(0b100u64, 0u64),
        bit(0b101u64, 2u64) && !bit(0b101u64, 1u64) && bit(0b101u64, 0u64),
        bit(0b110u64, 2u64) && bit(0b110u64, 1u64) && !bit(0b110u64, 0u64),
        bit(0b1110u64, 3u64) && bit(0b1110u64, 2u64) && bit(0b1110u64, 1u64) && !bit(
            0b1110u64,
            0u64,
        ),
        bit(0b1111u64, 3u64) && bit(0b1111u64, 2u64) && bit(0b1111u64, 1u64) && bit(
            0b1111u64,
            0u64,
        ),
{
}

/// Small numbers have no high bits.
pub proof fn lemma_small_words(v: u64)
    by (bit_vector)
    ensures
        v < 4 ==> v >> 2 == 0,
        v < 16 ==> v >> 4 == 0,
        v < 64 ==> v >> 6 == 0,
        v < 0x1_0000_0000 ==> v >> 32 == 0,
        v < 2 ==> v >> 1 == 0,
{
}

/// The prefix codes, bit by bit.
pub proof fn lemma_prefix<const CHANNELS: usize>(typ: Typ<CHANNELS>)
    ensures
        typ.prefix() == match typ {
            Typ::Short => seq![false, false],
            Typ::Color => seq![false, true],
            Typ::Repeating => seq![true, false, false],
            Typ::Gray => seq![true, false, true],
            Typ::Medium => seq![true, true, false],
            Typ::Long => seq![true, true, true, false],
            Typ::Offset => seq![true, true, true, true],
        },
{
    lemma_code_bits();
    let expected = match typ {
        Typ::Short => seq![false, false],
        Typ::Color => seq![false, true],
        Typ::Repeating => seq![true, false, false],
        Typ::Gray => seq![true, false, true],
        Typ::Medium => seq![true, true, false],
        Typ::Long => seq![true, true, true, false],
        Typ::Offset => seq![true, true, true, true],
    };
    assert(typ.prefix() =~= expected);
}

/// One bit and two bits as numbers.
pub proof fn lemma_read_small(bits: Seq<bool>, pos: nat)
    ensures
        pos + 1 <= bits.len() ==> read(bits, pos, 1) == Some(
            if bits[pos as int] {
                1nat
            } else {
                0nat
            },
        ),
        pos + 2 <= bits.len() ==> read(bits, pos, 2) == Some(
            (if bits[pos as int] {
                2nat
            } else {
                0nat
            }) + (if bits[pos as int + 1] {
                1nat
            } else {
                0nat
            }),
        ),
{
    reveal_with_fuel(bits_value, 3);
    if pos + 1 <= bits.len() {
        let one = bits.subrange(pos as int, pos as int + 1);
        assert(one.last() == bits[pos as int]);
        assert(one.drop_last().len() == 0);
    }
    if pos + 2 <= bits.len() {
        let two = bits.subrange(pos as int, pos as int + 2);
        assert(two.last() == bits[pos as int + 1]);
        assert(two.drop_last().last() == bits[pos as int]);
        assert(two.drop_last().drop_last().len() == 0);
    }
}

/// Where the bits of a prefix code stand, that code is read.
pub proof fn lemma_code_at_prefix<const CHANNELS: usize>(
    bits: Seq<bool>,
    pos: nat,
    typ: Typ<CHANNELS>,
)
    requires
        pos + typ.code_len_of() <= bits.len(),
        bits.subrange(pos as int, (pos + typ.code_len_of()) as int) == typ.prefix(),
    ensures
        code_at(bits, pos) == Some((typ.code_of() as nat, pos + typ.code_len_of())),
{
    reveal(code_at);
    lemma_prefix(typ);
    lemma_read_small(bits, pos);
    lemma_read_small(bits, pos + 1);
    lemma_read_small(bits, pos + 3);
    let prefix = bits.subrange(pos as int, (pos + typ.code_len_of()) as int);
    assert(prefix[0] == bits[pos as int]);
    assert(prefix[1] == bits[pos as int + 1]);
    if typ.code_len_of() >= 3 {
        assert(prefix[2] == bits[pos as int + 2]);
    }
    if typ.code_len_of() >= 4 {
        assert(prefix[3] == bits[pos as int + 3]);
    }
}

/// The number of bits of a block, and of its payload.
pub proof fn lemma_token_len<const CHANNELS: usize>(token: Token)
    requires
        token_wf::<CHANNELS>(token),
    ensures
        payload_of(token).len() == typ_of::<CHANNELS>(token).payload_len_of(),
        token_bits::<CHANNELS>(token).len() == typ_of::<CHANNELS>(token).code_len_of()
            + typ_of::<CHANNELS>(token).payload_len_of(),
{
    match token {
        Token::Short(delta) => {
            lemma_channels_bits_len(delta, 4);
            assert(delta.len() * 4 == 4 * CHANNELS) by (nonlinear_arith)
                requires
                    delta.len() == CHANNELS,
            ;
        },
        Token::Medium(delta) => {
            lemma_channels_bits_len(delta, 6);
            assert(delta.len() * 6 == 6 * CHANNELS) by (nonlinear_arith)
                requires
                    delta.len() == CHANNELS,
            ;
        },
        Token::Long(delta) => {
            lemma_channels_bits_len(delta, 9);
            assert(delta.len() * 9 == 9 * CHANNELS) by (nonlinear_arith)
                requires
                    delta.len() == CHANNELS,
            ;
        },
        _ => {},
    }
}

/// A block is what its prefix code and its payload stand for.
pub proof fn lemma_token_of_payload<const CHANNELS: usize>(token: Token)
    requires
        CHANNELS == 3 || CHANNELS == 4,
        token_wf::<CHANNELS>(token),
    ensures
        token_of::<CHANNELS>(
            typ_of::<CHANNELS>(token).code_of() as nat,
            bits_value(payload_of(token)),
        ) == token,
{
    let payload = payload_of(token);
    lemma_token_len::<CHANNELS>(token);
    lemma_bits_of_value(payload);
    reveal_with_fuel(two_pow, 9);
    match token {
        Token::Short(delta) => {
            lemma_pixel_of_channels_bits(delta, 4);
        },
        Token::Medium(delta) => {
            lemma_pixel_of_channels_bits(delta, 6);
        },
        Token::Long(delta) => {
            lemma_pixel_of_channels_bits(delta, 9);
        },
        Token::Palette(index) => {
            lemma_small_words(index as u64);
            lemma_bits_value_of(index as u64, 4);
        },
        Token::Repeat(length) => {
            lemma_small_words((length - 1) as u64);
            lemma_bits_value_of((length - 1) as u64, 6);
        },
        Token::Gray(value) => {
            lemma_small_words(value as u64);
            lemma_bits_value_of(value as u64, 2);
        },
        Token::Offset(slot) => {
            lemma_small_words(slot as u64);
            lemma_bits_value_of(slot as u64, 6);
        },
    }
}

/// Where the bits of a block stand, that block is read.
pub proof fn lemma_block_at_token<const CHANNELS: usize>(
    front: Seq<bool>,
    token: Token,
    back: Seq<bool>,
)
    requires
        CHANNELS == 3 || CHANNELS == 4,
        token_wf::<CHANNELS>(token),
    ensures
        block_at::<CHANNELS>(front + token_bits::<CHANNELS>(token) + back, front.len()) == Some(
            (
                typ_of::<CHANNELS>(token).code_of() as nat,
                bits_value(payload_of(token)),
                front.len() + token_bits::<CHANNELS>(token).len(),
            ),
        ),
        token_of::<CHANNELS>(
            typ_of::<CHANNELS>(token).code_of() as nat,
            bits_value(payload_of(token)),
        ) == token,
        token_bits::<CHANNELS>(token).len() >= 5,
{
    reveal(block_at);
    let typ = typ_of::<CHANNELS>(token);
    let bits = front + token_bits::<CHANNELS>(token) + back;
    let pos = front.len();
    let after = pos + typ.code_len_of();
    lemma_token_len::<CHANNELS>(token);
    lemma_token_of_payload::<CHANNELS>(token);
    assert(bits.subrange(pos as int, after as int) =~= typ.prefix());
    lemma_code_at_prefix(bits, pos, typ);
    assert(bits.subrange(after as int, (after + typ.payload_len_of()) as int) =~= payload_of(
        token,
    ));
    assert(Typ::<CHANNELS>::of_code(typ.code_of()) == Some(typ));
}

/// The bits of blocks one after the other.
pub proof fn lemma_tokens_bits_concat<const CHANNELS: usize>(a: Seq<Token>, b: Seq<Token>)
    ensures
        tokens_bits::<CHANNELS>(a + b) == tokens_bits::<CHANNELS>(a) + tokens_bits::<CHANNELS>(b),
    decreases b.len(),
{
    if b.len() == 0 {
        assert(a + b =~= a);
        assert(tokens_bits::<CHANNELS>(a) + tokens_bits::<CHANNELS>(b) =~= tokens_bits::<CHANNELS>(a));
    } else {
        assert((a + b).drop_last() =~= a + b.drop_last());
        assert((a + b).last() == b.last());
        lemma_tokens_bits_concat::<CHANNELS>(a, b.drop_last());
        assert(tokens_bits::<CHANNELS>(a) + tokens_bits::<CHANNELS>(b.drop_last())
            + token_bits::<CHANNELS>(b.last()) =~= tokens_bits::<CHANNELS>(a) + (
        tokens_bits::<CHANNELS>(b.drop_last()) + token_bits::<CHANNELS>(b.last())));
    }
}

/// The bits of palette entries one after the other.
pub proof fn lemma_palette_bits_concat<const CHANNELS: usize>(a: Seq<Seq<i16>>, b: Seq<Seq<i16>>)
    ensures
        palette_bits::<CHANNELS>(a + b) == palette_bits::<CHANNELS>(a) + palette_bits::<CHANNELS>(
            b,
        ),
    decreases b.len(),
{
    if b.len() == 0 {
        assert(a + b =~= a);
        assert(palette_bits::<CHANNELS>(a) + palette_bits::<CHANNELS>(b) =~= palette_bits::<
            CHANNELS,
        >(a));
    } else {
        assert((a + b).drop_last() =~= a + b.drop_last());
        assert((a + b).last() == b.last());
        lemma_palette_bits_concat::<CHANNELS>(a, b.drop_last());
        assert(palette_bits::<CHANNELS>(a) + palette_bits::<CHANNELS>(b.drop_last()) + pixel_bits(
            b.last(),
            Typ::<CHANNELS>::Long,
        ) =~= palette_bits::<CHANNELS>(a) + (palette_bits::<CHANNELS>(b.drop_last()) + pixel_bits(
            b.last(),
            Typ::<CHANNELS>::Long,
        )));
    }
}

/// Padding holds no block.
pub proof fn lemma_block_at_padding<const CHANNELS: usize>(front: Seq<bool>, pad: nat)
    requires
        CHANNELS == 3 || CHANNELS == 4,
        pad < 8,
    ensures
        block_at::<CHANNELS>(front + zeros(pad), front.len()).is_none(),
        only_padding(front + zeros(pad), front.len()),
{
    reveal(block_at);
    reveal(code_at);
    let bits = front + zeros(pad);
    lemma_read_small(bits, front.len());
    lemma_read_small(bits, front.len() + 1);
}

/// Every block can stand in a body of `CHANNELS` channels.
pub open spec fn body_wf<const CHANNELS: usize>(tokens: Seq<Token>) -> bool {
    forall|i: int|
        0 <= i < tokens.len() ==> token_wf::<CHANNELS>(#[trigger] tokens[i]) && !(
        tokens[i] is Gray)
}

/// A body that was written, with its padding, is read as the blocks it was made of.
pub proof fn lemma_parse_body<const CHANNELS: usize>(
    front: Seq<bool>,
    tokens: Seq<Token>,
    pad: nat,
)
    requires
        CHANNELS == 3 || CHANNELS == 4,
        body_wf::<CHANNELS>(tokens),
        pad < 8,
    ensures
        parse_body::<CHANNELS>(
            front + tokens_bits::<CHANNELS>(tokens) + zeros(pad),
            front.len(),
        ) == Ok::<Seq<Token>, DecodeError>(tokens),
    decreases tokens.len(),
{
    let bits = front + tokens_bits::<CHANNELS>(tokens) + zeros(pad);
    if tokens.len() == 0 {
        assert(bits =~= front + zeros(pad));
        lemma_block_at_padding::<CHANNELS>(front, pad);
        assert(tokens =~= Seq::<Token>::empty());
    } else {
        let token = tokens[0];
        let rest = tokens.subrange(1, tokens.len() as int);
        assert(tokens =~= seq![token] + rest);
        lemma_tokens_bits_concat::<CHANNELS>(seq![token], rest);
        assert(tokens_bits::<CHANNELS>(seq![token]) =~= token_bits::<CHANNELS>(token)) by {
            reveal_with_fuel(tokens_bits, 2);
            assert(seq![token].drop_last().len() == 0);
            assert(seq![token].last() == token);
        }
        let back = tokens_bits::<CHANNELS>(rest) + zeros(pad);
        assert(bits =~= front + token_bits::<CHANNELS>(token) + back);
        lemma_block_at_token::<CHANNELS>(front, token, back);
        let next = front + token_bits::<CHANNELS>(token);
        assert(bits =~= next + tokens_bits::<CHANNELS>(rest) + zeros(pad));
        assert(body_wf::<CHANNELS>(rest)) by {
            assert forall|i: int| 0 <= i < rest.len() implies token_wf::<CHANNELS>(
                #[trigger] rest[i],
            ) && !(rest[i] is Gray) by {
                assert(rest[i] == tokens[i + 1]);
            }
        }
        lemma_parse_body::<CHANNELS>(next, rest, pad);
        assert(typ_of::<CHANNELS>(token).code_of() != 0b101);
    }
}

/// Palette entries that were written are read as they were.
pub proof fn lemma_parse_palette<const CHANNELS: usize>(
    front: Seq<bool>,
    entries: Seq<Seq<i16>>,
    back: Seq<bool>,
    count: nat,
)
    requires
        CHANNELS == 3 || CHANNELS == 4,
        count <= entries.len(),
        forall|i: int| 0 <= i < entries.len() ==> is_delta(#[trigger] entries[i], CHANNELS as nat),
    ensures
        parse_palette::<CHANNELS>(
            front + palette_bits::<CHANNELS>(entries) + back,
            front.len(),
            count,
        ) == Ok::<(Seq<Seq<i16>>, nat), DecodeError>(
            (
                entries.take(count as int),
                front.len() + palette_bits::<CHANNELS>(entries.take(count as int)).len(),
            ),
        ),
    decreases count,
{
    let bits = front + palette_bits::<CHANNELS>(entries) + back;
    if count == 0 {
        assert(entries.take(0) =~= Seq::<Seq<i16>>::empty());
    } else {
        lemma_parse_palette::<CHANNELS>(front, entries, back, (count - 1) as nat);
        let head = entries.take(count - 1);
        let entry = entries[count - 1];
        let tail = entries.skip(count as int);
        let token = Token::Long(entry);
        assert(entries =~= head + (seq![entry] + tail));
        lemma_palette_bits_concat::<CHANNELS>(head, seq![entry] + tail);
        lemma_palette_bits_concat::<CHANNELS>(seq![entry], tail);
        assert(palette_bits::<CHANNELS>(seq![entry]) =~= token_bits::<CHANNELS>(token)) by {
            reveal_with_fuel(palette_bits, 2);
            assert(seq![entry].drop_last().len() == 0);
            assert(seq![entry].last() == entry);
        }
        let before = front + palette_bits::<CHANNELS>(head);
        let after = palette_bits::<CHANNELS>(tail) + back;
        assert(bits =~= before + token_bits::<CHANNELS>(token) + after);
        assert(is_delta(entry, CHANNELS as nat));
        lemma_block_at_token::<CHANNELS>(before, token, after);
        assert(entries.take(count as int).drop_last() =~= head);
        assert(entries.take(count as int).last() == entry);
        assert(head.push(entry) =~= entries.take(count as int));
    }
}

/// A header that was written is read as it was.
pub proof fn lemma_parse_header<const CHANNELS: usize>(
    width: u32,
    height: u32,
    palette: Seq<Seq<i16>>,
    back: Seq<bool>,
)
    requires
        CHANNELS == 3 || CHANNELS == 4,
        forall|i: int| 0 <= i < palette.len() ==> is_delta(#[trigger] palette[i], CHANNELS as nat),
    ensures
        parse_header::<CHANNELS>(header_bits::<CHANNELS>(width, height, palette) + back, 0) == Ok::<
            (u32, u32, Seq<Seq<i16>>, nat),
            DecodeError,
        >(
            (
                width,
                height,
                padded_palette(palette, CHANNELS as nat),
                header_bits::<CHANNELS>(width, height, palette).len(),
            ),
        ),
        header_bits::<CHANNELS>(width, height, palette).len() >= 65,
{
    let c = CHANNELS as nat;
    let entries = padded_palette(palette, c);
    let front = bits_of(alpha_flag::<CHANNELS>(), 1) + bits_of(width as u64, 32) + bits_of(
        height as u64,
        32,
    );
    let bits = header_bits::<CHANNELS>(width, height, palette) + back;
    assert(bits =~= front + palette_bits::<CHANNELS>(entries) + back);
    assert(bits.subrange(1, 33) =~= bits_of(width as u64, 32));
    assert(bits.subrange(33, 65) =~= bits_of(height as u64, 32));
    lemma_small_words(width as u64);
    lemma_small_words(height as u64);
    lemma_bits_value_of(width as u64, 32);
    lemma_bits_value_of(height as u64, 32);
    assert forall|i: int| 0 <= i < entries.len() implies is_delta(#[trigger] entries[i], c) by {
        if i < palette.len() {
            assert(is_delta(palette[i], c));
        } else if palette.len() > 0 {
            assert(is_delta(palette[palette.len() - 1], c));
        }
    }
    lemma_parse_palette::<CHANNELS>(front, entries, back, 16);
    assert(entries.take(16) =~= entries);
}

} // verus!
