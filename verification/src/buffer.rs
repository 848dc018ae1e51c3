//! The bit buffer: a writer that appends blocks without byte alignment, and a reader
//! that takes fields of any width back out.
use crate::bits::{
    bit, bits_of, bits_value, bytes_bits, lemma_bits_concat, lemma_bits_mask, lemma_bits_shr,
    lemma_bits_suffix, lemma_bits_value_of, lemma_pack_of_bits, low_mask, pack, padded, zeros,
};
use crate::blocks::{blocks_bits, low_bits, Block, Typ};
use crate::img::Header;
use crate::stream::alpha_flag;
use crate::U8_BITS;
use vstd::prelude::*;
use vstd::std_specs::convert::FromSpecImpl;

verus! {

/// The first `n` bits of `bits` from `pos` on, as a number; `None` where fewer remain.
pub open spec fn read(bits: Seq<bool>, pos: nat, n: nat) -> Option<nat> {
    if pos + n <= bits.len() {
        Some(bits_value(bits.subrange(pos as int, (pos + n) as int)))
    } else {
        None
    }
}

/// The prefix code at `pos`: its number and the position after it. One bit is read; if
/// it is 0, one more; if it is 1, two more, and after `111` a fourth.
#[verifier::opaque]
pub open spec fn code_at(bits: Seq<bool>, pos: nat) -> Option<(nat, nat)> {
    match read(bits, pos, 1) {
        None => None,
        Some(first) => if first == 0 {
            match read(bits, pos + 1, 1) {
                None => None,
                Some(second) => Some((second, pos + 2)),
            }
        } else {
            match read(bits, pos + 1, 2) {
                None => None,
                Some(rest) => if rest == 3 {
                    match read(bits, pos + 3, 1) {
                        None => None,
                        Some(last) => Some((0b1110 + last, pos + 4)),
                    }
                } else {
                    Some((0b100 + rest, pos + 3))
                },
            }
        },
    }
}

/// The block at `pos` in a stream of `CHANNELS` channels: its prefix code, its payload
/// as a number, and the position after it. `None` where the stream ends before the
/// block does.
#[verifier::opaque]
pub open spec fn block_at<const CHANNELS: usize>(bits: Seq<bool>, pos: nat) -> Option<
    (nat, nat, nat),
> {
    match code_at(bits, pos) {
        None => None,
        Some((code, after)) => match Typ::<CHANNELS>::of_code(code as u64) {
            None => None,
            Some(typ) => match read(bits, after, typ.payload_len_of()) {
                None => None,
                Some(value) => Some((code, value, after + typ.payload_len_of())),
            },
        },
    }
}

/// From `pos` on, fewer than eight bits are left and all of them are zero.
pub open spec fn only_padding(bits: Seq<bool>, pos: nat) -> bool {
    &&& pos <= bits.len()
    &&& bits.len() - pos < 8
    &&& forall|i: int| pos <= i < bits.len() ==> !#[trigger] bits[i]
}

/// A bit of two bytes joined is set where it is set in either.
proof fn lemma_or_byte(a: u8, b: u8, k: u64)
    by (bit_vector)
    requires
        k < 64,
    ensures
        bit((a | b) as u64, k) == (bit(a as u64, k) || bit(b as u64, k)),
{
}

/// A byte as a word is its own eight low bits.
proof fn lemma_byte_mask(b: u8)
    by (bit_vector)
    ensures
        (b as u64) & low_mask(8) == b as u64,
{
}

/// Where the bits of a byte from `off` on are masked to zero, each of them is zero.
proof fn lemma_tail_zero(b: u8, off: u8, j: u64)
    by (bit_vector)
    requires
        off < 8,
        j < 8,
        b & (0xffu8 >> off) == 0,
        j + off < 8,
    ensures
        !bit(b as u64, j),
{
}

/// Where the bits of a byte from `off` on are not masked to zero, one of them is set.
proof fn lemma_tail_nonzero(b: u8, off: u8)
    by (bit_vector)
    requires
        off < 8,
        b & (0xffu8 >> off) != 0,
    ensures
        (bit(b as u64, 0) && off < 8) || (bit(b as u64, 1) && off < 7) || (bit(b as u64, 2) && off
            < 6) || (bit(b as u64, 3) && off < 5) || (bit(b as u64, 4) && off < 4) || (bit(
            b as u64,
            5,
        ) && off < 3) || (bit(b as u64, 6) && off < 2) || (bit(b as u64, 7) && off < 1),
{
}

/// The writer: bits are appended at the end of `bytes`, most significant bit first.
pub struct Buffer {
    /// The bytes written so far; the unused bits of the last one are zero.
    pub bytes: Vec<u8>,
    /// The first unused bit of the last byte; zero where the last byte is full or
    /// there is none.
    pub offset: usize,
}

impl View for Buffer {
    type V = Seq<bool>;

    /// The bits written so far.
    open spec fn view(&self) -> Seq<bool> {
        bytes_bits(self.bytes@).take(self.bit_len() as int)
    }
}

impl Buffer {
    /// The number of bits written so far.
    pub open spec fn bit_len(&self) -> nat {
        if self.offset == 0 {
            8 * self.bytes@.len()
        } else {
            (8 * self.bytes@.len() - 8 + self.offset) as nat
        }
    }

    /// The offset is below eight, points into a byte that exists, and the bits after
    /// it are zero.
    pub open spec fn wf(&self) -> bool {
        &&& self.offset < 8
        &&& self.offset > 0 ==> self.bytes@.len() > 0
        &&& forall|i: int|
            self.bit_len() <= i < 8 * self.bytes@.len() ==> !#[trigger] bytes_bits(self.bytes@)[i]
    }

    /// An empty buffer with room for `capacity` bytes.
    pub fn new(capacity: usize) -> (buffer: Self)
        ensures
            buffer.wf(),
            buffer@ == Seq::<bool>::empty(),
            buffer.bytes@.len() == 0,
    {
        let buffer = Self { bytes: Vec::with_capacity(capacity), offset: 0 };
        assert(buffer@ =~= Seq::<bool>::empty());
        buffer
    }

    /// A buffer that holds a header: alpha flag, width, height, and the blocks of the
    /// palette.
    pub fn from_header<const CHANNELS: usize>(header: Header<CHANNELS>) -> (buffer: Self)
        requires
            forall|i: int|
                0 <= i < header.encoded_palette@.len() ==> (
                #[trigger] header.encoded_palette@[i]).bit_count <= 56,
        ensures
            buffer.wf(),
            buffer@ == bits_of(alpha_flag::<CHANNELS>(), 1) + bits_of(header.width as u64, 32)
                + bits_of(header.height as u64, 32) + blocks_bits(header.encoded_palette@),
    {
        let mut buffer = Buffer::new(0);
        let alpha_code: u64 = if CHANNELS == 3 {
            0
        } else {
            1
        };
        buffer.push(Block::new(1, alpha_code));
        buffer.push(Block::new(32, header.width as u64));
        buffer.push(Block::new(32, header.height as u64));
        let ghost head = buffer@;
        let n = header.encoded_palette.len();
        let mut idx: usize = 0;
        assert(header.encoded_palette@.take(0) =~= Seq::<Block>::empty());
        while idx < n
            invariant
                idx <= n,
                n == header.encoded_palette@.len(),
                forall|i: int|
                    0 <= i < header.encoded_palette@.len() ==> (
                    #[trigger] header.encoded_palette@[i]).bit_count <= 56,
                buffer.wf(),
                buffer@ == head + blocks_bits(header.encoded_palette@.take(idx as int)),
            decreases n - idx,
        {
            let block = &header.encoded_palette[idx];
            proof {
                assert(header.encoded_palette@.take(idx + 1).drop_last()
                    =~= header.encoded_palette@.take(idx as int));
            }
            buffer.push(Block::new(block.bit_count, block.value));
            idx += 1;
        }
        assert(header.encoded_palette@.take(n as int) =~= header.encoded_palette@);
        buffer
    }

    /// The number of bytes written so far, the last one counted whole.
    pub fn len(&self) -> (len: usize)
        ensures
            len == self.bytes@.len(),
    {
        self.bytes.len()
    }

    /// The bytes are the packing of the bits written.
    pub proof fn lemma_bytes_are_packed(&self)
        requires
            self.wf(),
        ensures
            self.bytes@ == pack(self@),
            self@.len() == self.bit_len(),
    {
        assert(bytes_bits(self.bytes@) =~= padded(self@));
        lemma_pack_of_bits(self.bytes@, self@);
    }

    /// Appends the bits of a block to the stream.
    pub fn push(&mut self, byte: Block)
        requires
            old(self).wf(),
            byte.bit_count <= 56,
        ensures
            final(self).wf(),
            final(self)@ == old(self)@ + byte@,
    {
        let ghost block_bits = byte@;
        let ghost n = byte.bit_count as nat;
        let ghost off = self.offset as nat;
        let ghost before = self.bytes@;
        let ghost old_bits = self@;
        if byte.bit_count == 0 {
            assert(self@ =~= old_bits + block_bits);
            return ;
        }
        let (bytes, count, new_offset) = byte.into_bytes(self.offset);
        let ghost window = bytes_bits(bytes@);
        let ghost kept: Seq<u8> = if off == 0 {
            before
        } else {
            before.drop_last()
        };
        let ghost tail: u8 = if off == 0 {
            0u8
        } else {
            before.last()
        };
        let bytes_count = self.bytes.len();
        let first = bytes[0];
        if self.offset == 0 {
            self.bytes.push(first);
            assert(0u8 | first == first) by (bit_vector);
        } else {
            let joined = self.bytes[bytes_count - 1] | first;
            self.bytes[bytes_count - 1] = joined;
        }
        assert(self.bytes@ =~= kept.push(tail | first));
        let mut k: usize = 1;
        while k < count
            invariant
                1 <= k <= count <= 8,
                self.offset == off,
                self.bytes@.len() == kept.len() + k,
                forall|i: int| 0 <= i < kept.len() ==> self.bytes@[i] == kept[i],
                self.bytes@[kept.len() as int] == tail | first,
                forall|i: int| 1 <= i < k ==> self.bytes@[kept.len() + i] == bytes@[i],
            decreases count - k,
        {
            self.bytes.push(bytes[k]);
            k += 1;
        }
        self.offset = new_offset;
        proof {
            let after = self.bytes@;
            assert(after =~= kept + Seq::new(
                count as nat,
                |k: int|
                    if k == 0 {
                        tail | first
                    } else {
                        bytes@[k]
                    },
            ));
            lemma_append(before, off, bytes@, block_bits, after);
        }
    }
}

/// Appending through the window: the whole bytes before the tail stay, the tail byte
/// takes the first byte of the window in, and the other used bytes of the window follow.
proof fn lemma_append(before: Seq<u8>, off: nat, window: Seq<u8>, block: Seq<bool>, after: Seq<u8>)
    requires
        off < 8,
        off > 0 ==> before.len() > 0,
        forall|i: int|
            8 * before.len() - (if off == 0 {
                0int
            } else {
                8 - off
            }) <= i < 8 * before.len() ==> !#[trigger] bytes_bits(before)[i],
        window.len() == 8,
        1 <= block.len() <= 56,
        bytes_bits(window) == zeros(off) + block + zeros((64 - off - block.len()) as nat),
        after == (if off == 0 {
            before
        } else {
            before.drop_last()
        }) + Seq::new(
            ((off + block.len() + 7) / 8) as nat,
            |k: int|
                if k == 0 {
                    (if off == 0 {
                        0u8
                    } else {
                        before.last()
                    }) | window[0]
                } else {
                    window[k]
                },
        ),
    ensures
        ({
            let old_len = 8 * before.len() - (if off == 0 {
                0int
            } else {
                8 - off
            });
            &&& 8 * after.len() - (if (off + block.len()) % 8 == 0 {
                0int
            } else {
                8 - (off + block.len()) % 8
            }) == old_len + block.len()
            &&& bytes_bits(after).take(old_len + block.len()) == bytes_bits(before).take(old_len)
                + block
            &&& forall|i: int|
                old_len + block.len() <= i < 8 * after.len() ==> !#[trigger] bytes_bits(after)[i]
        }),
{
    let n = block.len();
    let kept: Seq<u8> = if off == 0 {
        before
    } else {
        before.drop_last()
    };
    let tail: u8 = if off == 0 {
        0u8
    } else {
        before.last()
    };
    let base = 8 * kept.len();
    let old_len = base + off;
    let wbits = bytes_bits(window);
    let old_bits = bytes_bits(before).take(old_len as int);
    assert forall|i: int| 0 <= i < 8 * after.len() implies #[trigger] bytes_bits(after)[i] == (if i
        < old_len {
        old_bits[i]
    } else if i < old_len + n {
        block[i - old_len]
    } else {
        false
    }) by {
        if i < base {
            assert(i / 8 < kept.len());
            assert(after[i / 8] == kept[i / 8]);
            assert(kept[i / 8] == before[i / 8]);
        } else {
            let p = i - base;
            assert(i / 8 == kept.len() + p / 8 && i % 8 == p % 8);
            assert(wbits[p] == bit(window[p / 8] as u64, (7 - p % 8) as u64));
            if p < 8 {
                assert(after[i / 8] == tail | window[0]);
                lemma_or_byte(tail, window[0], (7 - p) as u64);
                if off == 0 {
                    assert(!bit(0u8 as u64, (7 - p) as u64)) by {
                        assert(0u64 >> 0 == 0) by (bit_vector);
                        crate::bits::lemma_bit_small(0, 0, (7 - p) as u64);
                    }
                } else {
                    assert(bytes_bits(before)[i] == bit(tail as u64, (7 - p) as u64));
                    if p >= off {
                        assert(!bytes_bits(before)[i]);
                    }
                }
            } else {
                assert(after[i / 8] == window[p / 8]);
            }
        }
    }
    assert(bytes_bits(after).take((old_len + n) as int) =~= old_bits + block);
}

/// The reader: a cursor over the bits of `bytes`.
pub struct BufferDecoder {
    /// The bytes of the stream.
    pub bytes: Vec<u8>,
    /// The bit of the byte at `index` that the cursor is at.
    pub offset: usize,
    /// The byte that the cursor is in.
    pub index: usize,
}

impl BufferDecoder {
    /// The position of the cursor, in bits from the start.
    pub open spec fn pos(&self) -> nat {
        8 * self.index as nat + self.offset as nat
    }

    /// The bits of the stream.
    pub open spec fn bits(&self) -> Seq<bool> {
        bytes_bits(self.bytes@)
    }

    /// The cursor lies within the stream.
    pub open spec fn wf(&self) -> bool {
        &&& self.offset < 8
        &&& self.index <= self.bytes@.len()
        &&& self.index == self.bytes@.len() ==> self.offset == 0
    }

    /// A reader at the start of `raw`.
    pub fn new(raw: Vec<u8>) -> (buffer: Self)
        ensures
            buffer == (BufferDecoder { bytes: raw, offset: 0, index: 0 }),
            buffer.wf(),
            buffer.bytes@ == raw@,
            buffer.pos() == 0,
    {
        Self { bytes: raw, offset: 0, index: 0 }
    }

    /// The next `n` bits as a number, most significant bit first; `None`, with the
    /// cursor where it was, if fewer than `n` bits remain.
    pub fn next_n_bits(&mut self, n: usize) -> (out: Option<u64>)
        requires
            old(self).wf(),
            n <= 56,
        ensures
            final(self).wf(),
            final(self).bytes@ == old(self).bytes@,
            match read(old(self).bits(), old(self).pos(), n as nat) {
                Some(value) => out == Some(value as u64) && value <= u64::MAX && final(self).pos()
                    == old(self).pos() + n,
                None => out.is_none() && final(self).pos() == old(self).pos(),
            },
    {
        let ghost bits = self.bits();
        let ghost pos = self.pos();
        if n == 0 {
            assert(bits.subrange(pos as int, pos as int) =~= Seq::<bool>::empty());
            return Some(0);
        }
        let len = n + self.offset;
        let new_offset = len % U8_BITS;
        let mut bytes_count = len / U8_BITS;
        if new_offset > 0 {
            bytes_count += 1;
        }
        if bytes_count > self.bytes.len() - self.index {
            return None;
        }
        let mut out: u64 = 0;
        let mut k: usize = 0;
        let ghost base = 8 * self.index as nat;
        assert(bits_of(out, 0) =~= bits.subrange(base as int, base as int));
        assert(0u64 >> 0 == 0) by (bit_vector);
        while k < bytes_count
            invariant
                k <= bytes_count <= 8,
                self.index + bytes_count <= self.bytes.len(),
                bits == bytes_bits(self.bytes@),
                base == 8 * self.index,
                bits_of(out, (8 * k) as nat) == bits.subrange(base as int, base + 8 * k),
                k < 8 ==> out >> ((8 * k) as u64) == 0,
            decreases bytes_count - k,
        {
            let byte = self.bytes[self.index + k];
            proof {
                lemma_byte_mask(byte);
                lemma_bits_concat(out, (8 * k) as nat, byte as u64, 8);
                assert(bits_of(byte as u64, 8) =~= bits.subrange(base + 8 * k, base + 8 * k + 8)) by {
                    assert forall|j: int| 0 <= j < 8 implies #[trigger] bits_of(byte as u64, 8)[j]
                        == bits[base + 8 * k + j] by {
                        assert((base + 8 * k + j) / 8 == self.index + k);
                        assert((base + 8 * k + j) % 8 == j);
                    }
                }
                assert(bits.subrange(base as int, base + 8 * k) + bits.subrange(
                    base + 8 * k,
                    base + 8 * k + 8,
                ) =~= bits.subrange(base as int, base + 8 * (k + 1)));
                let o = out;
                let s = (8 * k) as u64;
                let b = byte;
                assert(s < 56 && o >> s == 0 ==> ((o << 8) | (b as u64)) >> ((s + 8) as u64) == 0)
                    by (bit_vector);
            }
            out = (out << U8_BITS) | (byte as u64);
            k += 1;
        }
        let ghost window = bits.subrange(base as int, base + 8 * bytes_count);
        let ghost gathered = out;
        let drop = bytes_count * U8_BITS - len;
        out = out >> drop;
        out = out & low_bits(n);
        proof {
            lemma_bits_mask(gathered >> drop, n as nat);
            lemma_bits_shr(gathered, drop as nat, n as nat);
            lemma_bits_suffix(gathered, (8 * bytes_count) as nat, (n + drop) as nat);
            assert(bits_of(out, n as nat) =~= bits.subrange(pos as int, (pos + n) as int));
            lemma_bits_value_of(out, n as nat);
        }
        self.index += bytes_count - 1;
        self.offset = new_offset;
        if self.offset == 0 {
            self.index += 1;
        }
        Some(out)
    }

    /// The next prefix code, in the numbering `00, 01, 100, 101, 110, 1110, 1111`;
    /// `None`, with the cursor where it was, if the stream ends within it.
    pub fn next_code(&mut self) -> (out: Option<u64>)
        requires
            old(self).wf(),
        ensures
            final(self).wf(),
            final(self).bytes@ == old(self).bytes@,
            match code_at(old(self).bits(), old(self).pos()) {
                Some((code, after)) => out == Some(code as u64) && code <= 15 && final(self).pos()
                    == after,
                None => out.is_none() && final(self).pos() == old(self).pos(),
            },
    {
        let index = self.index;
        let offset = self.offset;
        let ghost bits = self.bits();
        let ghost pos = self.pos();
        proof {
            reveal(code_at);
            lemma_read_bound(bits, pos, 1);
            lemma_read_bound(bits, pos + 1, 1);
            lemma_read_bound(bits, pos + 1, 2);
            lemma_read_bound(bits, pos + 3, 1);
        }
        let code = match self.next_n_bits(1) {
            None => None,
            Some(start) => if start == 0 {
                self.next_n_bits(1)
            } else {
                match self.next_n_bits(2) {
                    None => None,
                    Some(rest) => if rest == 3 {
                        match self.next_n_bits(1) {
                            None => None,
                            Some(last) => Some(0b1110 + last),
                        }
                    } else {
                        Some(0b100 + rest)
                    },
                }
            },
        };
        if code.is_none() {
            self.index = index;
            self.offset = offset;
        }
        code
    }

    /// The next block, as its prefix code and its payload; `None`, with the cursor where
    /// it was, if the stream ends within it.
    pub fn next_block<const CHANNELS: usize>(&mut self) -> (out: Option<(u64, u64)>)
        requires
            old(self).wf(),
            CHANNELS <= 4,
        ensures
            final(self).wf(),
            final(self).bytes@ == old(self).bytes@,
            match block_at::<CHANNELS>(old(self).bits(), old(self).pos()) {
                Some((code, value, after)) => out == Some((code as u64, value as u64)) && code <= 15
                    && value <= u64::MAX && final(self).pos() == after,
                None => out.is_none() && final(self).pos() == old(self).pos(),
            },
    {
        let index = self.index;
        let offset = self.offset;
        proof {
            reveal(block_at);
        }
        let code = match self.next_code() {
            None => {
                return None;
            },
            Some(code) => code,
        };
        proof {
            lemma_code_is_known::<CHANNELS>(old(self).bits(), old(self).pos());
        }
        match self.next_n_bits(Block::block_len::<CHANNELS>(code)) {
            None => {
                self.index = index;
                self.offset = offset;
                None
            },
            Some(value) => Some((code, value)),
        }
    }

    /// Whether only padding is left: fewer than eight bits, all of them zero.
    pub fn at_padding(&self) -> (r: bool)
        requires
            self.wf(),
        ensures
            r == only_padding(self.bits(), self.pos()),
    {
        let len = self.bytes.len();
        if self.index == len {
            true
        } else if self.index == len - 1 && self.offset > 0 {
            let last = self.bytes[self.index];
            let rest = last & (0xffu8 >> self.offset);
            proof {
                let bits = self.bits();
                let base = 8 * self.index;
                if rest == 0 {
                    assert forall|i: int| self.pos() <= i < bits.len() implies !#[trigger] bits[i] by {
                        assert(i / 8 == self.index && i % 8 == i - base);
                        lemma_tail_zero(last, self.offset as u8, (7 - (i - base)) as u64);
                    }
                } else {
                    lemma_tail_nonzero(last, self.offset as u8);
                    assert(forall|j: int|
                        0 <= j < 8 ==> #[trigger] bits[base + j] == bit(last as u64, (7 - j) as u64))
                        by {
                        assert forall|j: int| 0 <= j < 8 implies #[trigger] bits[base + j] == bit(
                            last as u64,
                            (7 - j) as u64,
                        ) by {
                            assert((base + j) / 8 == self.index && (base + j) % 8 == j);
                        }
                    }
                    if bit(last as u64, 0) && self.offset < 8 {
                        assert(bits[base + 7]);
                    } else if bit(last as u64, 1) && self.offset < 7 {
                        assert(bits[base + 6]);
                    } else if bit(last as u64, 2) && self.offset < 6 {
                        assert(bits[base + 5]);
                    } else if bit(last as u64, 3) && self.offset < 5 {
                        assert(bits[base + 4]);
                    } else if bit(last as u64, 4) && self.offset < 4 {
                        assert(bits[base + 3]);
                    } else if bit(last as u64, 5) && self.offset < 3 {
                        assert(bits[base + 2]);
                    } else if bit(last as u64, 6) && self.offset < 2 {
                        assert(bits[base + 1]);
                    } else {
                        assert(bits[base + 0]);
                    }
                    assert(!only_padding(bits, self.pos()));
                }
            }
            rest == 0
        } else {
            false
        }
    }
}

impl From<Vec<u8>> for BufferDecoder {
    /// A reader at the start of `raw`.
    fn from(raw: Vec<u8>) -> (buffer: Self) {
        Self::new(raw)
    }
}

impl FromSpecImpl<Vec<u8>> for BufferDecoder {
    open spec fn obeys_from_spec() -> bool {
        true
    }

    open spec fn from_spec(raw: Vec<u8>) -> Self {
        BufferDecoder { bytes: raw, offset: 0, index: 0 }
    }
}

/// A number read from `n` bits is below `2^n`.
pub proof fn lemma_read_bound(bits: Seq<bool>, pos: nat, n: nat)
    requires
        n <= 2,
    ensures
        read(bits, pos, n) matches Some(v) ==> (n == 1 ==> v <= 1) && (n == 2 ==> v <= 3),
{
    if pos + n <= bits.len() {
        let b = bits.subrange(pos as int, (pos + n) as int);
        crate::bits::lemma_bits_value_bound(b);
        reveal_with_fuel(crate::bits::two_pow, 3);
    }
}

/// Every prefix code that can be read is one of the seven, and ends where its length
/// says.
pub proof fn lemma_code_is_known<const CHANNELS: usize>(bits: Seq<bool>, pos: nat)
    ensures
        code_at(bits, pos) matches Some((code, after)) ==> {
            &&& code <= 15
            &&& Typ::<CHANNELS>::of_code(code as u64) matches Some(typ)
            &&& typ.code_of() == code
            &&& after == pos + typ.code_len_of()
            &&& after <= bits.len()
        },
{
    reveal(code_at);
    lemma_read_bound(bits, pos, 1);
    lemma_read_bound(bits, pos + 1, 1);
    lemma_read_bound(bits, pos + 1, 2);
    lemma_read_bound(bits, pos + 3, 1);
}

} // verus!
