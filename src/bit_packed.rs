//! Decoder of the BIT_PACKED encoding: values of a fixed bit width, packed
//! without padding from the most significant bit of each byte onwards.
use vstd::prelude::*;
use vstd::arithmetic::div_mod::{lemma_div_denominator, lemma_fundamental_div_mod_converse};
use vstd::arithmetic::power2::{
    lemma2_to64, lemma_pow2_pos, lemma_pow2_strictly_increases, lemma_pow2_unfold, pow2,
};
use vstd::bits::{
    lemma_u64_low_bits_mask_is_mod, lemma_u64_pow2_no_overflow, lemma_u64_shl_is_mul,
    lemma_u64_shr_is_div, lemma_u8_shr_is_div,
};
use vstd::slice::slice_subrange;

use crate::error::Error;

verus! {

/// Number of values decoded at a time.
pub const BLOCK_LEN: usize = 32;

/// Size in bytes of the scratch buffer that holds a short final block.
const SCRATCH_LEN: usize = 128;

/// Bit `j` of a packed stream, taking the bits of each byte from the most
/// significant one; every bit past the end of the stream is zero.
pub open spec fn stream_bit(data: Seq<u8>, j: nat) -> nat {
    if j / 8 < data.len() {
        ((data[(j / 8) as int] >> ((7 - j % 8) as u8)) & 1u8) as nat
    } else {
        0
    }
}

/// The integer formed by the `k` bits of the stream that start at bit `start`,
/// the first of them the most significant.
pub open spec fn packed_value(data: Seq<u8>, start: nat, k: nat) -> nat
    decreases k,
{
    if k == 0 {
        0
    } else {
        packed_value(data, start, (k - 1) as nat) * 2 + stream_bit(data, start + (k - 1) as nat)
    }
}

/// Value `i` of a stream packed at `num_bits` bits per value.
pub open spec fn unpacked(data: Seq<u8>, num_bits: nat, i: nat) -> nat {
    packed_value(data, i * num_bits, num_bits)
}

/// The first `length` values of a stream packed at `num_bits` bits per value.
pub open spec fn unpacked_seq(data: Seq<u8>, num_bits: nat, length: nat) -> Seq<u32> {
    Seq::new(length, |i: int| unpacked(data, num_bits, i as nat) as u32)
}

/// Bytes taken by one block of values of `num_bits` bits.
pub open spec fn block_bytes(num_bits: nat) -> nat {
    4 * num_bits
}

/// Number of blocks (the last one possibly short) that `len` bytes hold.
pub open spec fn chunk_count(len: nat, num_bits: nat) -> nat {
    len / block_bytes(num_bits) + if len % block_bytes(num_bits) != 0 { 1nat } else { 0nat }
}

/// Number of blocks that `length` values span.
pub open spec fn block_count(length: nat) -> nat {
    length / 32 + if length % 32 != 0 { 1nat } else { 0nat }
}

/// Whether `len` bytes can supply `length` values of `num_bits` bits: a width
/// of zero stores nothing, otherwise each block present supplies 32 values.
pub open spec fn can_supply(len: nat, num_bits: nat, length: nat) -> bool {
    num_bits == 0 || block_count(length) <= chunk_count(len, num_bits)
}

proof fn lemma_bit_at_most_one(x: u8, s: u8)
    ensures
        (x >> s) & 1u8 <= 1,
        (0u8 >> s) & 1u8 == 0,
{
    assert((x >> s) & 1u8 <= 1) by (bit_vector);
    assert((0u8 >> s) & 1u8 == 0) by (bit_vector);
}

proof fn lemma_stream_bit_le_1(data: Seq<u8>, j: nat)
    ensures
        stream_bit(data, j) <= 1,
{
    if j / 8 < data.len() {
        lemma_bit_at_most_one(data[(j / 8) as int], (7 - j % 8) as u8);
    }
}

/// A value of `k` bits is below `2^k`.
pub proof fn lemma_packed_value_bound(data: Seq<u8>, start: nat, k: nat)
    ensures
        packed_value(data, start, k) < pow2(k),
    decreases k,
{
    if k == 0 {
        lemma2_to64();
    } else {
        lemma_packed_value_bound(data, start, (k - 1) as nat);
        lemma_stream_bit_le_1(data, start + (k - 1) as nat);
        lemma_pow2_unfold(k);
    }
}

/// Two streams that agree on `k` bits from `sa` and `sb` give the same value there.
proof fn lemma_packed_value_ext(a: Seq<u8>, sa: nat, b: Seq<u8>, sb: nat, k: nat)
    requires
        forall|p: nat|
            sa <= p < sa + k ==> #[trigger] stream_bit(a, p) == stream_bit(b, (p - sa + sb) as nat),
    ensures
        packed_value(a, sa, k) == packed_value(b, sb, k),
    decreases k,
{
    if k > 0 {
        lemma_packed_value_ext(a, sa, b, sb, (k - 1) as nat);
        assert(stream_bit(a, sa + (k - 1) as nat) == stream_bit(b, sb + (k - 1) as nat));
    }
}

/// Padding a stream with zero bytes leaves its bits unchanged.
proof fn lemma_zero_padding(data: Seq<u8>, padded: Seq<u8>, j: nat)
    requires
        data.len() <= padded.len(),
        padded.subrange(0, data.len() as int) == data,
        forall|i: int| data.len() <= i < padded.len() ==> padded[i] == 0,
    ensures
        stream_bit(padded, j) == stream_bit(data, j),
{
    let b = (j / 8) as int;
    if b < data.len() {
        assert(padded[b] == padded.subrange(0, data.len() as int)[b]);
    } else if b < padded.len() {
        lemma_bit_at_most_one(0, (7 - j % 8) as u8);
    }
}

/// Block `k` of a stream, decoded on its own, gives values `32 * k` onwards.
proof fn lemma_block_values(data: Seq<u8>, num_bits: nat, k: nat, j: nat)
    requires
        num_bits > 0,
        j < 32,
        k * block_bytes(num_bits) <= data.len(),
    ensures
        ({
            let start = k * block_bytes(num_bits);
            let end = if start + block_bytes(num_bits) <= data.len() {
                start + block_bytes(num_bits)
            } else {
                data.len() as nat
            };
            unpacked(data.subrange(start as int, end as int), num_bits, j) == unpacked(
                data,
                num_bits,
                32 * k + j,
            )
        }),
{
    let w = num_bits;
    let bb = block_bytes(w);
    let start = k * bb;
    let end = if start + bb <= data.len() { start + bb } else { data.len() as nat };
    let chunk = data.subrange(start as int, end as int);
    assert((32 * k + j) * w == 8 * start + j * w) by (nonlinear_arith)
        requires
            start == k * bb,
            bb == 4 * w,
    ;
    assert forall|u: nat| j * w <= u < j * w + w implies #[trigger] stream_bit(chunk, u)
        == stream_bit(data, (u - j * w + (32 * k + j) * w) as nat) by {
        assert(u < 8 * bb) by (nonlinear_arith)
            requires
                u < j * w + w,
                j < 32,
                bb == 4 * w,
        ;
        assert((8 * start + u) / 8 == start + u / 8);
        assert((8 * start + u) % 8 == u % 8);
        if u / 8 < chunk.len() {
            assert(chunk[(u / 8) as int] == data[(start + u / 8) as int]);
        }
    }
    lemma_packed_value_ext(chunk, j * w, data, (32 * k + j) * w, w);
}

/// Where `m` blocks cover `len` bytes, those bytes hold at most `m` blocks.
proof fn lemma_chunk_count_le(len: nat, num_bits: nat, m: nat)
    requires
        num_bits > 0,
        len <= m * block_bytes(num_bits),
    ensures
        chunk_count(len, num_bits) <= m,
{
    let bb = block_bytes(num_bits);
    let q = len / bb;
    let r = len % bb;
    lemma_div_mod(len, bb);
    if r == 0 {
        assert(q <= m) by (nonlinear_arith)
            requires
                len == bb * q,
                len <= m * bb,
                bb > 0,
        ;
    } else {
        assert(q < m) by (nonlinear_arith)
            requires
                len == bb * q + r,
                r > 0,
                len <= m * bb,
                bb > 0,
        ;
    }
}

proof fn lemma_div_mod(n: nat, d: nat)
    requires
        d > 0,
    ensures
        n == d * (n / d) + n % d,
        n % d < d,
        d >= 4 ==> 4 * (n / d) <= n,
{
    let q = n / d;
    let r = n % d;
    assert(n == d * q + r && r < d) by (nonlinear_arith)
        requires
            d > 0,
            q == n / d,
            r == n % d,
    ;
    if d >= 4 {
        assert(4 * q <= n) by (nonlinear_arith)
            requires
                n == d * q + r,
                r >= 0,
                q >= 0,
                d >= 4,
        ;
    }
}

/// `k + m` bits read as `k` bits then `m` bits.
proof fn lemma_packed_value_split(data: Seq<u8>, start: nat, k: nat, m: nat)
    ensures
        packed_value(data, start, k + m) == packed_value(data, start, k) * pow2(m) + packed_value(
            data,
            start + k,
            m,
        ),
    decreases m,
{
    lemma2_to64();
    if m > 0 {
        lemma_packed_value_split(data, start, k, (m - 1) as nat);
        lemma_pow2_unfold(m);
        let a = packed_value(data, start, k);
        let b = packed_value(data, start + k, (m - 1) as nat);
        let c = stream_bit(data, start + k + (m - 1) as nat);
        assert((k + m - 1) as nat == k + (m - 1) as nat);
        assert(packed_value(data, start + k, m) == b * 2 + c);
        assert(packed_value(data, start, k + m) == packed_value(data, start, k + (m - 1) as nat) * 2
            + c);
        assert((a * pow2((m - 1) as nat) + b) * 2 + c == a * (2 * pow2((m - 1) as nat)) + (b * 2
            + c)) by (nonlinear_arith);
        assert(packed_value(data, start, k + (m - 1) as nat) == a * pow2((m - 1) as nat) + b);
        assert(pow2(m) == 2 * pow2((m - 1) as nat));
    } else {
        assert(packed_value(data, start, k + m) == packed_value(data, start, k));
        assert(pow2(0) == 1);
    }
}

/// The eight bits of a byte of the stream give the byte.
proof fn lemma_byte_value(data: Seq<u8>, m: nat)
    requires
        m < data.len(),
    ensures
        packed_value(data, 8 * m, 8) == data[m as int],
{
    let v = data[m as int];
    lemma2_to64();
    assert forall|p: nat| 8 * m <= p < 8 * m + 8 implies #[trigger] stream_bit(data, p) == (v as nat
        / pow2((8 - 1 - (p - 8 * m)) as nat)) % 2 by {
        let s = (7 - p % 8) as u8;
        assert(p / 8 == m);
        lemma_u8_shr_is_div(v, s);
        let y = v >> s;
        assert(y & 1u8 == y % 2) by (bit_vector);
    }
    lemma_value_from_bits(data, 8 * m, 8, v as nat, 8);
    assert(v as nat / 1 == v as nat);
}

/// Four bytes of the stream give the big-endian word of 32 bits there.
proof fn lemma_word_value(data: Seq<u8>, k: nat)
    requires
        4 * k + 4 <= data.len(),
    ensures
        packed_value(data, 32 * k, 32) == data[4 * k as int] as nat * 16777216 + data[4 * k as int
            + 1] as nat * 65536 + data[4 * k as int + 2] as nat * 256 + data[4 * k as int
            + 3] as nat,
{
    let s = 32 * k;
    lemma2_to64();
    lemma_packed_value_split(data, s, 24, 8);
    lemma_packed_value_split(data, s, 16, 8);
    lemma_packed_value_split(data, s, 8, 8);
    lemma_byte_value(data, 4 * k);
    lemma_byte_value(data, 4 * k + 1);
    lemma_byte_value(data, 4 * k + 2);
    lemma_byte_value(data, 4 * k + 3);
}

/// Reads the big-endian word of 32 bits that begins at byte `4 * k`.
fn load_word(data: &[u8], k: usize) -> (r: u64)
    requires
        4 * k + 4 <= data@.len(),
    ensures
        r as nat == packed_value(data@, 32 * k as nat, 32),
        r < 0x1_0000_0000,
{
    proof {
        lemma_word_value(data@, k as nat);
    }
    let n = data.len();
    let i = 4 * k;
    data[i] as u64 * 16777216 + data[i + 1] as u64 * 65536 + data[i + 2] as u64 * 256 + data[i
        + 3] as u64
}

/// Unpacks the first block of values of `num_bits` bits held in `compressed`.
///
/// The stream is read one big-endian 32-bit word at a time into a 64-bit
/// register whose low `available` bits are the bits not yet consumed; each
/// value is cut from the top of those bits.
fn decompress(compressed: &[u8], decompressed: &mut Vec<u32>, num_bits: u8)
    requires
        1 <= num_bits <= 32,
        compressed@.len() >= block_bytes(num_bits as nat),
        old(decompressed)@.len() == BLOCK_LEN,
    ensures
        final(decompressed)@.len() == BLOCK_LEN,
        forall|j: int|
            0 <= j < BLOCK_LEN ==> #[trigger] final(decompressed)@[j] as nat == unpacked(
                compressed@,
                num_bits as nat,
                j as nat,
            ),
{
    let ghost data = compressed@;
    let ghost w = num_bits as nat;
    let mut register: u64 = 0;
    let mut available: u32 = 0;
    let mut next_word: usize = 0;
    let mut i: usize = 0;
    proof {
        lemma2_to64();
    }
    while i < BLOCK_LEN
        invariant
            1 <= num_bits <= 32,
            data == compressed@,
            w == num_bits,
            compressed@.len() >= block_bytes(w),
            i <= BLOCK_LEN,
            available < 32 + w,
            i * w + available == 32 * next_word,
            register as nat == packed_value(data, (i * w) as nat, available as nat),
            decompressed@.len() == BLOCK_LEN,
            forall|j: int|
                0 <= j < i ==> #[trigger] decompressed@[j] as nat == unpacked(data, w, j as nat),
        decreases BLOCK_LEN - i,
    {
        let ghost start = (i * w) as nat;
        proof {
            lemma2_to64();
        }
        if available < num_bits as u32 {
            assert(4 * next_word + 4 <= compressed@.len() && next_word < w) by (nonlinear_arith)
                requires
                    i < 32,
                    i * w + available == 32 * next_word,
                    available < w,
                    compressed@.len() >= 4 * w,
            ;
            let word = load_word(compressed, next_word);
            proof {
                lemma_packed_value_bound(data, start, available as nat);
                lemma_pow2_strictly_increases(available as nat, 32);
                lemma_packed_value_split(data, start, available as nat, 32);
                assert(start + available == 32 * next_word);
                let r = register;
                assert(r < 0x1_0000_0000 ==> (r << 32u64) | word == r * 0x1_0000_0000 + word)
                    by (bit_vector)
                    requires
                        word < 0x1_0000_0000,
                ;
            }
            register = (register << 32u64) | word;
            available = available + 32;
            next_word = next_word + 1;
        }
        assert(register as nat == packed_value(data, start, available as nat));
        let rest_bits: u32 = available - num_bits as u32;
        proof {
            lemma_packed_value_split(data, start, w, rest_bits as nat);
            lemma_packed_value_bound(data, start + w, rest_bits as nat);
            lemma_packed_value_bound(data, start, w);
            lemma_pow2_pos(rest_bits as nat);
            assert(register as nat == packed_value(data, start, w) * pow2(rest_bits as nat)
                + packed_value(data, start + w, rest_bits as nat));
            lemma_u64_shr_is_div(register, rest_bits as u64);
            lemma_fundamental_div_mod_converse(
                register as int,
                pow2(rest_bits as nat) as int,
                packed_value(data, start, w) as int,
                packed_value(data, start + w, rest_bits as nat) as int,
            );
            lemma_u64_pow2_no_overflow(rest_bits as nat);
            lemma_u64_shl_is_mul(1, rest_bits as u64);
            lemma_u64_low_bits_mask_is_mod(register, rest_bits as nat);
        }
        let value = register >> (rest_bits as u64);
        let mask: u64 = (1u64 << (rest_bits as u64)) - 1;
        register = register & mask;
        available = rest_bits;
        proof {
            if w < 32 {
                lemma_pow2_strictly_increases(w, 32);
            }
            assert(start + w == (i + 1) * w) by (nonlinear_arith)
                requires
                    start == i * w,
            ;
        }
        decompressed.set(i, value as u32);
        i = i + 1;
    }
}

/// Unpacks one block, padding with zero bytes a block shorter than a full one.
fn decode_pack(compressed: &[u8], num_bits: u8, pack: &mut Vec<u32>)
    requires
        1 <= num_bits <= 32,
        old(pack)@.len() == BLOCK_LEN,
    ensures
        final(pack)@.len() == BLOCK_LEN,
        forall|j: int|
            0 <= j < BLOCK_LEN ==> #[trigger] final(pack)@[j] as nat == unpacked(
                compressed@,
                num_bits as nat,
                j as nat,
            ),
{
    let block_size: usize = BLOCK_LEN * num_bits as usize / 8;
    if compressed.len() < block_size {
        let mut buf: Vec<u8> = Vec::new();
        let mut i: usize = 0;
        while i < SCRATCH_LEN
            invariant
                compressed@.len() < block_size <= SCRATCH_LEN,
                i <= SCRATCH_LEN,
                buf@.len() == i,
                forall|k: int| 0 <= k < i && k < compressed@.len() ==> buf@[k] == compressed@[k],
                forall|k: int| 0 <= k < i && k >= compressed@.len() ==> buf@[k] == 0,
            decreases SCRATCH_LEN - i,
        {
            if i < compressed.len() {
                buf.push(compressed[i]);
            } else {
                buf.push(0);
            }
            i = i + 1;
        }
        assert(buf@.subrange(0, compressed@.len() as int) == compressed@);
        decompress(&buf, pack, num_bits);
        assert forall|j: int| 0 <= j < BLOCK_LEN implies #[trigger] pack@[j] as nat == unpacked(
            compressed@,
            num_bits as nat,
            j as nat,
        ) by {
            let w = num_bits as nat;
            assert forall|p: nat| j as nat * w <= p < j as nat * w + w implies #[trigger] stream_bit(
                buf@,
                p,
            ) == stream_bit(compressed@, (p - j as nat * w + j as nat * w) as nat) by {
                lemma_zero_padding(compressed@, buf@, p);
            }
            lemma_packed_value_ext(buf@, j as nat * w, compressed@, j as nat * w, w);
        }
    } else {
        decompress(compressed, pack, num_bits);
    }
}

/// Bit `j` of the stream that packs `values` at `num_bits` bits each, the
/// most significant bit of each value first; zero past the last value.
pub open spec fn value_bit(values: Seq<u32>, num_bits: nat, j: nat) -> nat {
    if num_bits > 0 && j / num_bits < values.len() {
        (values[(j / num_bits) as int] as nat / pow2((num_bits - 1 - j % num_bits) as nat)) % 2
    } else {
        0
    }
}

/// The integer formed by the first `k` bits of byte `b` of that stream.
pub open spec fn byte_bits(values: Seq<u32>, num_bits: nat, b: nat, k: nat) -> nat
    decreases k,
{
    if k == 0 {
        0
    } else {
        byte_bits(values, num_bits, b, (k - 1) as nat) * 2 + value_bit(
            values,
            num_bits,
            8 * b + (k - 1) as nat,
        )
    }
}

/// `values` packed at `num_bits` bits each, the last byte filled up with zero bits.
pub open spec fn packed_bytes(values: Seq<u32>, num_bits: nat) -> Seq<u8> {
    Seq::new(
        ((values.len() * num_bits + 7) / 8) as nat,
        |b: int| byte_bits(values, num_bits, b as nat, 8) as u8,
    )
}

proof fn lemma_byte_bits_bound(values: Seq<u32>, num_bits: nat, b: nat, k: nat)
    ensures
        byte_bits(values, num_bits, b, k) < pow2(k),
    decreases k,
{
    if k == 0 {
        lemma2_to64();
    } else {
        lemma_byte_bits_bound(values, num_bits, b, (k - 1) as nat);
        lemma_pow2_unfold(k);
    }
}

/// Bit `t` of the first `k` bits of a byte, counted from the most significant.
proof fn lemma_byte_bits_digit(values: Seq<u32>, num_bits: nat, b: nat, k: nat, t: nat)
    requires
        t < k,
    ensures
        (byte_bits(values, num_bits, b, k) / pow2((k - 1 - t) as nat)) % 2 == value_bit(
            values,
            num_bits,
            8 * b + t,
        ),
    decreases k,
{
    let p = byte_bits(values, num_bits, b, (k - 1) as nat);
    let c = value_bit(values, num_bits, 8 * b + (k - 1) as nat);
    assert(c < 2);
    assert(byte_bits(values, num_bits, b, k) == 2 * p + c);
    if t == k - 1 {
        lemma2_to64();
        assert((2 * p + c) / 1 == 2 * p + c);
        assert((2 * p + c) % 2 == c);
    } else {
        lemma_byte_bits_digit(values, num_bits, b, (k - 1) as nat, t);
        let e = (k - 2 - t) as nat;
        lemma_pow2_unfold((k - 1 - t) as nat);
        assert(pow2((k - 1 - t) as nat) == 2 * pow2(e));
        lemma_pow2_pos(e);
        lemma_div_denominator((2 * p + c) as int, 2, pow2(e) as int);
        assert((2 * p + c) / 2 == p);
        assert((2 * p + c) / pow2((k - 1 - t) as nat) == p / pow2(e));
    }
}

/// Bits of the packed stream are the bits of the values.
proof fn lemma_packed_stream_bit(values: Seq<u32>, num_bits: nat, j: nat)
    requires
        j / 8 < packed_bytes(values, num_bits).len(),
    ensures
        stream_bit(packed_bytes(values, num_bits), j) == value_bit(values, num_bits, j),
{
    let b = j / 8;
    let t = j % 8;
    let full = byte_bits(values, num_bits, b, 8);
    lemma_byte_bits_bound(values, num_bits, b, 8);
    lemma2_to64();
    let byte = full as u8;
    let s = (7 - t) as u8;
    lemma_u8_shr_is_div(byte, s);
    let y = byte >> s;
    assert(y & 1u8 == y % 2) by (bit_vector);
    lemma_byte_bits_digit(values, num_bits, b, 8, t);
}

/// A value read back from the bits it was written with.
proof fn lemma_value_from_bits(data: Seq<u8>, start: nat, num_bits: nat, v: nat, k: nat)
    requires
        k <= num_bits,
        v < pow2(num_bits),
        forall|p: nat|
            start <= p < start + num_bits ==> #[trigger] stream_bit(data, p) == (v / pow2(
                (num_bits - 1 - (p - start)) as nat,
            )) % 2,
    ensures
        packed_value(data, start, k) == v / pow2((num_bits - k) as nat),
    decreases k,
{
    lemma_pow2_pos(num_bits);
    if k == 0 {
        lemma_fundamental_div_mod_converse(v as int, pow2(num_bits) as int, 0, v as int);
    } else {
        lemma_value_from_bits(data, start, num_bits, v, (k - 1) as nat);
        let e = (num_bits - k) as nat;
        let y = v / pow2(e);
        assert(stream_bit(data, start + (k - 1) as nat) == y % 2);
        lemma_pow2_unfold(e + 1);
        lemma_pow2_pos(e);
        lemma_div_denominator(v as int, pow2(e) as int, 2);
        assert(pow2(e) * 2 == pow2((num_bits - (k - 1)) as nat));
        assert((y / 2) * 2 + y % 2 == y);
    }
}

/// Decoding the packing of values that fit in `num_bits` bits gives back the
/// values, in order and as many of them.
pub proof fn lemma_round_trip(values: Seq<u32>, num_bits: nat)
    requires
        1 <= num_bits <= 32,
        forall|i: int| 0 <= i < values.len() ==> (#[trigger] values[i] as nat) < pow2(num_bits),
    ensures
        unpacked_seq(packed_bytes(values, num_bits), num_bits, values.len()) == values,
{
    let w = num_bits;
    let n = values.len();
    let data = packed_bytes(values, w);
    assert forall|i: int| 0 <= i < n implies #[trigger] unpacked_seq(data, w, n)[i] == values[i] by {
        let v = values[i] as nat;
        let start = i as nat * w;
        assert forall|p: nat| start <= p < start + w implies #[trigger] stream_bit(data, p) == (v
            / pow2((w - 1 - (p - start)) as nat)) % 2 by {
            let t = (p - start) as nat;
            assert(p < n * w && n * w + 7 < 8 * ((n * w + 7) / 8) + 8) by (nonlinear_arith)
                requires
                    p < start + w,
                    start == i * w,
                    i < n,
            ;
            lemma_packed_stream_bit(values, w, p);
            lemma_fundamental_div_mod_converse(p as int, w as int, i as int, t as int);
        }
        lemma_value_from_bits(data, start, w, v, w);
        lemma2_to64();
        assert(packed_value(data, start, w) == v / pow2(0));
        assert(v / 1 == v);
        assert(unpacked(data, w, i as nat) == v);
    }
    assert(unpacked_seq(data, w, n) =~= values);
}

/// A buffer shorter than its blocks' footprint gives, for each value whose
/// bits it holds, the value that any longer buffer beginning with it gives.
pub proof fn lemma_short_buffer(short: Seq<u8>, full: Seq<u8>, num_bits: nat, length: nat)
    requires
        short.len() <= full.len(),
        full.subrange(0, short.len() as int) == short,
        length * num_bits <= 8 * short.len(),
    ensures
        unpacked_seq(short, num_bits, length) == unpacked_seq(full, num_bits, length),
{
    assert forall|i: int| 0 <= i < length implies #[trigger] unpacked_seq(short, num_bits, length)[i]
        == unpacked_seq(full, num_bits, length)[i] by {
        let start = i as nat * num_bits;
        assert forall|p: nat| start <= p < start + num_bits implies #[trigger] stream_bit(short, p)
            == stream_bit(full, (p - start + start) as nat) by {
            assert(p < length * num_bits) by (nonlinear_arith)
                requires
                    p < start + num_bits,
                    start == i * num_bits,
                    i < length,
            ;
            assert(full[(p / 8) as int] == full.subrange(0, short.len() as int)[(p / 8) as int]);
        }
        lemma_packed_value_ext(short, start, full, start, num_bits);
    }
    assert(unpacked_seq(short, num_bits, length) =~= unpacked_seq(full, num_bits, length));
}

/// Decoder of the BIT_PACKED encoding: yields `length` values of `num_bits`
/// bits, one block of 32 at a time.
#[derive(Clone)]
pub struct Decoder<'a> {
    compressed: &'a [u8],
    num_bits: u8,
    remaining: usize,
    /// Byte offset of the block after the one in `current_pack`.
    next_chunk: usize,
    /// Index in `current_pack` of the next value; at most `BLOCK_LEN`.
    current_pack_index: usize,
    current_pack: Vec<u32>,
    /// Index of the block held in `current_pack`.
    block: Ghost<nat>,
}

impl<'a> Decoder<'a> {
    /// The bytes being decoded.
    pub closed spec fn data(&self) -> Seq<u8> {
        self.compressed@
    }

    /// The number of bits of each value.
    pub closed spec fn width(&self) -> nat {
        self.num_bits as nat
    }

    /// The index in the stream of the next value.
    pub closed spec fn position(&self) -> nat {
        (32 * self.block@ + self.current_pack_index) as nat
    }

    /// The number of values still to come.
    pub closed spec fn remaining_len(&self) -> nat {
        self.remaining as nat
    }

    /// The values still to come.
    pub open spec fn rest(&self) -> Seq<u32> {
        Seq::new(
            self.remaining_len(),
            |i: int| unpacked(self.data(), self.width(), self.position() + i as nat) as u32,
        )
    }

    /// The decoder's internal state is consistent.
    pub closed spec fn wf(&self) -> bool {
        let w = self.num_bits as nat;
        let len = self.compressed@.len();
        let bb = block_bytes(w);
        let end = (self.position() + self.remaining) as nat;
        &&& w <= 32
        &&& self.current_pack@.len() == BLOCK_LEN
        &&& self.current_pack_index <= BLOCK_LEN
        &&& self.current_pack_index == BLOCK_LEN ==> self.remaining == 0
        &&& w == 0 ==> forall|j: int| 0 <= j < BLOCK_LEN ==> #[trigger] self.current_pack@[j] == 0
        &&& forall|j: int|
            self.current_pack_index <= j < BLOCK_LEN && 32 * self.block@ + j < end
                ==> #[trigger] self.current_pack@[j] as nat == unpacked(
                self.compressed@,
                w,
                (32 * self.block@ + j) as nat,
            )
        &&& w > 0 ==> {
            &&& self.next_chunk as nat == if (self.block@ + 1) * bb <= len {
                (self.block@ + 1) * bb
            } else {
                len
            }
            &&& self.block@ * bb <= len
            &&& block_count(end) <= chunk_count(len, w)
        }
    }

    /// Returns a decoder of the first `length` values packed at `num_bits`
    /// bits in `compressed`.
    pub fn new(compressed: &'a [u8], num_bits: u8, length: usize) -> (r: Result<Decoder<'a>, Error>)
        ensures
            match r {
                Ok(d) => {
                    &&& num_bits <= 32
                    &&& can_supply(compressed@.len(), num_bits as nat, length as nat)
                    &&& d.wf()
                    &&& d.data() == compressed@
                    &&& d.width() == num_bits
                    &&& d.position() == 0
                    &&& d.rest() == unpacked_seq(compressed@, num_bits as nat, length as nat)
                    &&& d.rest().len() == length
                },
                Err(e) => {
                    &&& num_bits > 32 ==> e == Error::BitWidthTooLarge
                    &&& num_bits <= 32 ==> e == Error::BufferTooShort && !can_supply(
                        compressed@.len(),
                        num_bits as nat,
                        length as nat,
                    )
                },
            },
    {
        if num_bits > 32 {
            return Err(Error::BitWidthTooLarge);
        }
        let mut current_pack: Vec<u32> = Vec::new();
        let mut i: usize = 0;
        while i < BLOCK_LEN
            invariant
                i <= BLOCK_LEN,
                current_pack@.len() == i,
                forall|k: int| 0 <= k < i ==> current_pack@[k] == 0,
            decreases BLOCK_LEN - i,
        {
            current_pack.push(0);
            i = i + 1;
        }
        if num_bits == 0 {
            let d = Decoder {
                compressed,
                num_bits,
                remaining: length,
                next_chunk: 0,
                current_pack_index: 0,
                current_pack,
                block: Ghost(0),
            };
            assert(d.rest() =~= unpacked_seq(compressed@, 0, length as nat));
            return Ok(d);
        }
        let block_size: usize = BLOCK_LEN * num_bits as usize / 8;
        let blocks_needed: usize = length / BLOCK_LEN + if length % BLOCK_LEN != 0 {
            1
        } else {
            0
        };
        proof {
            lemma_div_mod(compressed@.len(), block_size as nat);
        }
        let chunks: usize = compressed.len() / block_size + if compressed.len() % block_size != 0 {
            1
        } else {
            0
        };
        assert(block_size as nat == block_bytes(num_bits as nat));
        if blocks_needed > chunks {
            return Err(Error::BufferTooShort);
        }
        let first_end: usize = if compressed.len() < block_size {
            compressed.len()
        } else {
            block_size
        };
        if compressed.len() > 0 {
            decode_pack(slice_subrange(compressed, 0, first_end), num_bits, &mut current_pack);
            proof {
                assert forall|j: int| 0 <= j < BLOCK_LEN implies #[trigger] current_pack@[j] as nat
                    == unpacked(compressed@, num_bits as nat, (32 * 0 + j) as nat) by {
                    lemma_block_values(compressed@, num_bits as nat, 0, j as nat);
                }
            }
        }
        let d = Decoder {
            compressed,
            num_bits,
            remaining: length,
            next_chunk: first_end,
            current_pack_index: 0,
            current_pack,
            block: Ghost(0),
        };
        assert(d.rest() =~= unpacked_seq(compressed@, num_bits as nat, length as nat));
        let ghost bb = block_bytes(num_bits as nat);
        assert((d.block@ + 1) * bb == bb) by (nonlinear_arith)
            requires
                d.block@ == 0,
        ;
        assert(d.wf());
        Ok(d)
    }

    /// Returns the next value, or `None` once all `length` values were produced.
    pub fn next(&mut self) -> (r: Option<u32>)
        requires
            old(self).wf(),
        ensures
            final(self).wf(),
            final(self).data() == old(self).data(),
            final(self).width() == old(self).width(),
            old(self).rest().len() == 0 ==> r.is_none() && final(self).rest() == old(self).rest(),
            old(self).rest().len() > 0 ==> {
                &&& r == Some(old(self).rest()[0])
                &&& final(self).rest() == old(self).rest().drop_first()
                &&& final(self).position() == old(self).position() + 1
            },
    {
        if self.remaining == 0 {
            return None;
        }
        let ghost w = self.num_bits as nat;
        let ghost len = self.compressed@.len();
        let ghost old_position = self.position();
        let result = self.current_pack[self.current_pack_index];
        assert(result == unpacked(self.compressed@, w, old_position) as u32);
        self.current_pack_index = self.current_pack_index + 1;
        if self.current_pack_index == BLOCK_LEN {
            if self.num_bits == 0 {
                self.current_pack_index = 0;
                self.block = Ghost(self.block@ + 1);
            } else if self.next_chunk < self.compressed.len() {
                let block_size: usize = BLOCK_LEN * self.num_bits as usize / 8;
                let chunk_end: usize = if self.compressed.len() - self.next_chunk > block_size {
                    self.next_chunk + block_size
                } else {
                    self.compressed.len()
                };
                let ghost next_block = self.block@ + 1;
                assert((next_block + 1) * block_bytes(w) == next_block * block_bytes(w)
                    + block_bytes(w)) by (nonlinear_arith);
                decode_pack(
                    slice_subrange(self.compressed, self.next_chunk, chunk_end),
                    self.num_bits,
                    &mut self.current_pack,
                );
                self.current_pack_index = 0;
                self.block = Ghost(next_block);
                self.next_chunk = chunk_end;
                proof {
                    assert forall|j: int|
                        0 <= j < BLOCK_LEN implies #[trigger] self.current_pack@[j] as nat
                        == unpacked(self.compressed@, w, (32 * next_block + j) as nat) by {
                        lemma_block_values(self.compressed@, w, next_block, j as nat);
                    }
                }
            } else {
                proof {
                    lemma_chunk_count_le(len, w, self.block@ + 1);
                }
            }
        }
        self.remaining = self.remaining - 1;
        assert(self.rest() =~= old(self).rest().drop_first());
        Some(result)
    }

    /// Returns the number of values still to come, as lower and upper bound.
    pub fn size_hint(&self) -> (r: (usize, Option<usize>))
        requires
            self.wf(),
        ensures
            r == (self.rest().len() as usize, Some(self.rest().len() as usize)),
    {
        (self.remaining, Some(self.remaining))
    }

    /// Returns every value still to come, in order, leaving the decoder exhausted.
    pub fn collect_remaining(&mut self) -> (r: Vec<u32>)
        requires
            old(self).wf(),
        ensures
            final(self).wf(),
            final(self).rest().len() == 0,
            r@ == old(self).rest(),
            r@.len() == old(self).rest().len(),
    {
        let mut out: Vec<u32> = Vec::new();
        while self.remaining > 0
            invariant
                self.wf(),
                out@ + self.rest() == old(self).rest(),
            decreases self.remaining,
        {
            let v = self.next();
            out.push(v.unwrap());
            assert(out@ + self.rest() =~= old(self).rest());
        }
        assert(self.rest().len() == 0);
        assert(out@ =~= old(self).rest());
        out
    }
}

} // verus!
