//! Bit sequences: the mathematical model of the stream.
//!
//! A stream is a `Seq<bool>`, most significant bit first. The functions here
//! relate such sequences to the machine words and bytes that carry them.
use vstd::prelude::*;

verus! {

/// Bit `k` of `v`, counted from the least significant bit (bit 0).
pub open spec fn bit(v: u64, k: u64) -> bool {
    (v >> k) & 1 == 1
}

/// The word whose `n` low bits are set, for `n < 64`.
pub open spec fn low_mask(n: u64) -> u64 {
    ((1u64 << n) - 1) as u64
}

/// The `n` low bits of `v`, most significant first.
pub open spec fn bits_of(v: u64, n: nat) -> Seq<bool> {
    Seq::new(n, |i: int| bit(v, (n - 1 - i) as u64))
}

/// The unsigned number that a bit sequence spells, most significant bit first.
pub open spec fn bits_value(b: Seq<bool>) -> nat
    decreases b.len(),
{
    if b.len() == 0 {
        0
    } else {
        2 * bits_value(b.drop_last()) + if b.last() {
            1nat
        } else {
            0nat
        }
    }
}

/// Two to the power `n`.
pub open spec fn two_pow(n: nat) -> nat
    decreases n,
{
    if n == 0 {
        1
    } else {
        2 * two_pow((n - 1) as nat)
    }
}

/// The signed number that a bit sequence spells in two's complement.
pub open spec fn signed_value(b: Seq<bool>) -> int {
    if b.len() > 0 && b[0] {
        bits_value(b) - two_pow(b.len())
    } else {
        bits_value(b) as int
    }
}

/// `n` zero bits.
pub open spec fn zeros(n: nat) -> Seq<bool> {
    Seq::new(n, |i: int| false)
}

/// The bits of a byte sequence: eight per byte, most significant first.
pub open spec fn bytes_bits(bytes: Seq<u8>) -> Seq<bool> {
    Seq::new(8 * bytes.len(), |i: int| bit(bytes[i / 8] as u64, (7 - i % 8) as u64))
}

/// How many zero bits fill a stream of `n` bits up to a whole byte.
pub open spec fn padding_len(n: nat) -> nat {
    ((8 - n % 8) % 8) as nat
}

/// A bit sequence filled up with zero bits to a whole number of bytes.
pub open spec fn padded(b: Seq<bool>) -> Seq<bool> {
    b + zeros(padding_len(b.len()))
}

/// The bytes that carry a bit sequence, the last one filled up with zero bits.
pub open spec fn pack(b: Seq<bool>) -> Seq<u8> {
    Seq::new(
        (b.len() + padding_len(b.len())) / 8,
        |k: int| bits_value(padded(b).subrange(8 * k, 8 * k + 8)) as u8,
    )
}

/// A bit of two fields joined: of the low field below its width, of the high field above.
pub proof fn lemma_bit_shl_or(x: u64, f: u64, w: u64, k: u64)
    by (bit_vector)
    requires
        w < 64,
        k < 64,
    ensures
        bit((x << w) | (f & low_mask(w)), k) == (if k < w {
            bit(f, k)
        } else {
            bit(x, (k - w) as u64)
        }),
{
}

/// A bit of a word shifted right is the bit that many places higher.
pub proof fn lemma_bit_shr(v: u64, s: u64, k: u64)
    by (bit_vector)
    requires
        s < 64,
        k < 64,
    ensures
        bit(v >> s, k) == (k + s < 64 && bit(v, (k + s) as u64)),
{
}

/// Masking keeps the bits below the width of the mask and clears the others.
pub proof fn lemma_bit_mask(v: u64, n: u64, k: u64)
    by (bit_vector)
    requires
        n < 64,
        k < 64,
    ensures
        bit(v & low_mask(n), k) == (k < n && bit(v, k)),
        (v & low_mask(n)) >> n == 0,
        v >> n == 0 ==> v & low_mask(n) == v,
        low_mask(n) == (1u64 << n) - 1,
        (1u64 << n) >= 1,
{
}

/// A word below `2^n` has no bit at `n` or above.
pub proof fn lemma_bit_small(v: u64, n: u64, k: u64)
    by (bit_vector)
    requires
        n < 64,
        v >> n == 0,
        n <= k < 64,
    ensures
        !bit(v, k),
{
}

/// A byte as a word has no bit above bit 7.
pub proof fn lemma_bit_byte(b: u8, k: u64)
    by (bit_vector)
    requires
        k < 64,
    ensures
        (b as u64) >> 8 == 0,
        bit(b as u64, k) ==> k < 8,
{
}

/// A word is twice its upper part plus its lowest bit.
proof fn lemma_halves(v: u64, n: u64)
    by (bit_vector)
    requires
        1 <= n < 64,
        v >> n == 0,
    ensures
        (v >> 1) >> ((n - 1) as u64) == 0,
        v == 2 * (v >> 1) + (v & 1),
        v & 1 == 0 || v & 1 == 1,
        v >> 0 == v,
{
}

/// Twice a word plus a bit: the bit becomes bit 0, the word what is above it.
proof fn lemma_double(v: u64, b: bool)
    by (bit_vector)
    requires
        v >> 63 == 0,
    ensures
        ({
            let r = (v << 1) | (if b { 1u64 } else { 0u64 });
            &&& r == 2 * v + (if b { 1u64 } else { 0u64 })
            &&& bit(r, 0) == b
            &&& r >> 1 == v
        }),
{
}

/// `two_pow(n)` is the word `1 << n`.
pub proof fn lemma_two_pow(n: nat)
    requires
        n < 64,
    ensures
        two_pow(n) == (1u64 << (n as u64)),
        two_pow(n) > 0,
    decreases n,
{
    if n == 0 {
        assert(1u64 << 0u64 == 1) by (bit_vector);
    } else {
        lemma_two_pow((n - 1) as nat);
        let m = (n - 1) as u64;
        let k = n as u64;
        assert(k < 64 && m == k - 1 ==> (1u64 << k) == 2 * (1u64 << m)) by (bit_vector);
    }
}

/// A word below `2^n` is the value of its `n` low bits.
pub proof fn lemma_bits_value_of(v: u64, n: nat)
    requires
        n < 64,
        v >> (n as u64) == 0,
    ensures
        bits_value(bits_of(v, n)) == v,
    decreases n,
{
    let b = bits_of(v, n);
    if n == 0 {
        assert(v >> 0 == v) by (bit_vector);
    } else {
        lemma_halves(v, n as u64);
        let h = v >> 1;
        assert(b.drop_last() =~= bits_of(h, (n - 1) as nat)) by {
            assert forall|i: int| 0 <= i < n - 1 implies #[trigger] b[i] == bits_of(h, (n - 1) as nat)[i] by {
                lemma_bit_shr(v, 1, (n - 2 - i) as u64);
            }
        }
        lemma_bits_value_of(h, (n - 1) as nat);
        assert(b.last() == bit(v, 0));
        assert(bit(v, 0) == (v & 1 == 1)) by (bit_vector);
    }
}

/// The value of `n` bits is below `2^n`.
pub proof fn lemma_bits_value_bound(b: Seq<bool>)
    ensures
        bits_value(b) < two_pow(b.len()),
    decreases b.len(),
{
    if b.len() > 0 {
        lemma_bits_value_bound(b.drop_last());
    }
}

/// The `n` low bits of the value of `n` bits are those bits.
pub proof fn lemma_bits_of_value(b: Seq<bool>)
    requires
        b.len() < 64,
    ensures
        bits_value(b) < two_pow(b.len()),
        two_pow(b.len()) == 1u64 << (b.len() as u64),
        (bits_value(b) as u64) >> (b.len() as u64) == 0,
        bits_of(bits_value(b) as u64, b.len()) == b,
    decreases b.len(),
{
    let n = b.len();
    lemma_bits_value_bound(b);
    lemma_two_pow(n);
    let v = bits_value(b) as u64;
    let k = n as u64;
    assert(k < 64 && v < (1u64 << k) ==> v >> k == 0) by (bit_vector);
    if n > 0 {
        let p = b.drop_last();
        lemma_bits_of_value(p);
        let h = bits_value(p) as u64;
        lemma_two_pow((n - 1) as nat);
        let m = (n - 1) as u64;
        assert(m < 63 && h < (1u64 << m) ==> h >> 63 == 0) by (bit_vector);
        lemma_double(h, b.last());
        assert forall|i: int| 0 <= i < n implies #[trigger] bits_of(v, n)[i] == b[i] by {
            if i < n - 1 {
                lemma_bit_shr(v, 1, (n - 2 - i) as u64);
                assert(bits_of(h, (n - 1) as nat)[i] == p[i]);
            }
        }
        assert(bits_of(v, n) =~= b);
    } else {
        assert(bits_of(v, n) =~= b);
    }
}

/// Two fields side by side: the bits of `(x << w) | low(f, w)`.
pub proof fn lemma_bits_concat(x: u64, a: nat, f: u64, w: nat)
    requires
        a + w <= 64,
        w < 64,
    ensures
        bits_of((x << (w as u64)) | (f & low_mask(w as u64)), a + w) == bits_of(x, a) + bits_of(f, w),
{
    let r = (x << (w as u64)) | (f & low_mask(w as u64));
    assert forall|i: int| 0 <= i < a + w implies #[trigger] bits_of(r, a + w)[i] == (bits_of(x, a) + bits_of(
        f,
        w,
    ))[i] by {
        lemma_bit_shl_or(x, f, w as u64, (a + w - 1 - i) as u64);
    }
    assert(bits_of(r, a + w) =~= bits_of(x, a) + bits_of(f, w));
}

/// A field cut out of a word: the bits of `v >> s`.
pub proof fn lemma_bits_shr(v: u64, s: nat, n: nat)
    requires
        n + s <= 64,
        s < 64,
    ensures
        bits_of(v >> (s as u64), n) == bits_of(v, n + s).subrange(0, n as int),
{
    assert forall|i: int| 0 <= i < n implies #[trigger] bits_of(v >> (s as u64), n)[i] == bits_of(v, n + s)[i] by {
        lemma_bit_shr(v, s as u64, (n - 1 - i) as u64);
    }
    assert(bits_of(v >> (s as u64), n) =~= bits_of(v, n + s).subrange(0, n as int));
}

/// Masking to `n` bits keeps the `n` low bits.
pub proof fn lemma_bits_mask(v: u64, n: nat)
    requires
        n < 64,
    ensures
        bits_of(v & low_mask(n as u64), n) == bits_of(v, n),
        (v & low_mask(n as u64)) >> (n as u64) == 0,
{
    lemma_bit_mask(v, n as u64, 0);
    assert forall|i: int| 0 <= i < n implies #[trigger] bits_of(v & low_mask(n as u64), n)[i] == bits_of(v, n)[i] by {
        lemma_bit_mask(v, n as u64, (n - 1 - i) as u64);
    }
    assert(bits_of(v & low_mask(n as u64), n) =~= bits_of(v, n));
}

/// The low part of a longer field.
pub proof fn lemma_bits_suffix(v: u64, n: nat, m: nat)
    requires
        m <= n <= 64,
    ensures
        bits_of(v, n).subrange(n - m, n as int) == bits_of(v, m),
{
    assert(bits_of(v, n).subrange(n - m, n as int) =~= bits_of(v, m));
}

/// Packing and unpacking: the bits of the packed bytes are the padded stream.
pub proof fn lemma_bits_of_pack(b: Seq<bool>)
    ensures
        bytes_bits(pack(b)) == padded(b),
        pack(b).len() * 8 == b.len() + padding_len(b.len()),
{
    let p = padded(b);
    let bytes = pack(b);
    assert forall|i: int| 0 <= i < p.len() implies #[trigger] bytes_bits(bytes)[i] == p[i] by {
        let k = i / 8;
        let j = i % 8;
        let chunk = p.subrange(8 * k, 8 * k + 8);
        lemma_bits_of_value(chunk);
        let v = bits_value(chunk);
        assert(two_pow(8) == 256) by {
            reveal_with_fuel(two_pow, 9);
        }
        assert(bytes[k] == v as u8);
        assert(bits_of(v as u64, 8)[j] == chunk[j]);
    }
    assert(bytes_bits(bytes) =~= p);
}

/// Bytes whose bits are a padded stream are the packing of that stream.
pub proof fn lemma_pack_of_bits(bytes: Seq<u8>, b: Seq<bool>)
    requires
        bytes_bits(bytes) == padded(b),
    ensures
        bytes == pack(b),
{
    let p = padded(b);
    assert(p.len() == 8 * bytes.len());
    assert forall|k: int| 0 <= k < bytes.len() implies #[trigger] bytes[k] == pack(b)[k] by {
        let chunk = p.subrange(8 * k, 8 * k + 8);
        let v = bytes[k] as u64;
        lemma_bit_byte(bytes[k], 0);
        assert(chunk =~= bits_of(v, 8)) by {
            assert forall|j: int| 0 <= j < 8 implies #[trigger] chunk[j] == bits_of(v, 8)[j] by {
                assert(bytes_bits(bytes)[8 * k + j] == p[8 * k + j]);
                assert((8 * k + j) / 8 == k && (8 * k + j) % 8 == j);
            }
        }
        lemma_bits_value_of(v, 8);
    }
    assert(bytes =~= pack(b));
}

} // verus!
