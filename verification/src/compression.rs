use vstd::prelude::*;
use vstd::arithmetic::power2::{pow2, lemma_pow2_pos, lemma_pow2_unfold, lemma2_to64, lemma_pow2_strictly_increases, lemma_pow2_adds};
use vstd::bits::{lemma_u32_shl_is_mul, lemma_u32_pow2_no_overflow, lemma_u64_shl_is_mul, lemma_u64_shr_is_div, lemma_u64_pow2_no_overflow, lemma_u32_low_bits_mask_is_mod, lemma_u64_low_bits_mask_is_mod, low_bits_mask, lemma_low_bits_mask_values};
use vstd::arithmetic::div_mod::{lemma_mod_breakdown, lemma_small_mod, lemma_basic_div};
use vstd::arithmetic::mul::{lemma_mul_is_associative, lemma_mul_is_commutative};
use crate::types::{TpBlockPosting, TP_BLOCK_SIZE, TP_COMPRESSED_HEADER_SIZE, TP_MAX_COMPRESSED_BLOCK_SIZE};
use crate::arith::{lemma_div_add_multiple, lemma_mod_add_multiple, lemma_pow2_split, lemma_div_pow2_bound, lemma_div_pow2_twice, lemma_window_ignores_high, lemma_div_add_shifted};

verus! {

/// Number of bits needed to write `v` in binary; zero takes one bit.
pub open spec fn bit_width(v: nat) -> nat
    decreases v,
{
    if v < 2 {
        1
    } else {
        bit_width(v / 2) + 1
    }
}

/// `r` is the least number of bits, at least one, that can hold `v`.
pub open spec fn is_bit_width(v: nat, r: nat) -> bool {
    &&& r >= 1
    &&& v < pow2(r)
    &&& (r == 1 || pow2((r - 1) as nat) <= v)
}

pub proof fn lemma_bit_width_characterized(v: nat)
    ensures
        is_bit_width(v, bit_width(v)),
    decreases v,
{
    lemma2_to64();
    if v >= 2 {
        lemma_bit_width_characterized(v / 2);
        let r = bit_width(v / 2);
        lemma_pow2_unfold(r + 1);
        if r > 1 {
            lemma_pow2_unfold(r);
        }
    }
}

pub proof fn lemma_bit_width_unique(v: nat, r: nat)
    requires
        is_bit_width(v, r),
    ensures
        r == bit_width(v),
{
    lemma_bit_width_characterized(v);
    let w = bit_width(v);
    if r < w {
        lemma_pow2_strictly_increases(r, (w - 1) as nat);
        if r < w - 1 {
        }
    } else if w < r {
        if w < r - 1 {
            lemma_pow2_strictly_increases(w, (r - 1) as nat);
        }
    }
}

/// Compute the minimum number of bits needed to represent a value:
/// one for zero, otherwise `ceil(log2(value + 1))`.
pub fn compute_bit_width(max_value: u32) -> (bits: u8)
    ensures
        bits as nat == bit_width(max_value as nat),
        1 <= bits <= 32,
{
    proof {
        lemma2_to64();
    }
    if max_value == 0 {
        return 1;
    }
    let mut bits: u8 = 1;
    while bits < 32 && (1u32 << bits) <= max_value
        invariant
            1 <= bits <= 32,
            pow2((bits - 1) as nat) <= max_value,
        decreases 32 - bits,
    {
        proof {
            lemma_u32_pow2_no_overflow(bits as nat);
            lemma_u32_shl_is_mul(1, bits as u32);
        }
        bits += 1;
    }
    proof {
        if bits < 32 {
            lemma_u32_pow2_no_overflow(bits as nat);
            lemma_u32_shl_is_mul(1, bits as u32);
        }
        lemma_bit_width_unique(max_value as nat, bits as nat);
    }
    bits
}


/// The `i`-th value of `vals`, cut to its low `bits` bits.
pub open spec fn masked(vals: Seq<u32>, bits: nat, i: int) -> nat {
    (vals[i] as nat) % pow2(bits)
}

/// The bit stream of the first `n` values, each `bits` wide, the first value in the
/// lowest bits: `sum over i < n of masked(i) * 2^(bits * i)`.
pub open spec fn packed_value(vals: Seq<u32>, bits: nat, n: nat) -> nat
    decreases n,
{
    if n == 0 {
        0
    } else {
        packed_value(vals, bits, (n - 1) as nat) + masked(vals, bits, n - 1) * pow2(bits * (n - 1) as nat)
    }
}

/// The values `k .. n` of the stream, re-based so that value `k` sits at bit 0.
pub open spec fn packed_range(vals: Seq<u32>, bits: nat, k: nat, n: nat) -> nat
    decreases n,
{
    if n <= k {
        0
    } else {
        packed_range(vals, bits, k, (n - 1) as nat) + masked(vals, bits, n - 1) * pow2(bits * (n - 1 - k) as nat)
    }
}

/// Bytes needed for `count` values of `bits` bits each.
pub open spec fn packed_len(count: nat, bits: nat) -> nat {
    (count * bits + 7) / 8
}

/// Byte `j` of the little-endian representation of `x`.
pub open spec fn le_byte(x: nat, j: nat) -> u8 {
    ((x / pow2(8 * j)) % 256) as u8
}

/// The bytes that bit-packing writes for `vals` at `bits` bits each: the little-endian
/// bytes of the packed bit stream, `packed_len` of them.
pub open spec fn bitpack_spec(vals: Seq<u32>, bits: nat) -> Seq<u8> {
    Seq::new(packed_len(vals.len(), bits), |j: int| le_byte(packed_value(vals, bits, vals.len()), j as nat))
}

/// The little-endian number that `bytes` spell.
pub open spec fn le_value(bytes: Seq<u8>) -> nat
    decreases bytes.len(),
{
    if bytes.len() == 0 {
        0
    } else {
        le_value(bytes.drop_last()) + (bytes.last() as nat) * pow2(8 * (bytes.len() - 1) as nat)
    }
}

/// The `i`-th value of `bits` bits that unpacking reads from `bytes`.
pub open spec fn unpacked(bytes: Seq<u8>, bits: nat, i: nat) -> u32 {
    ((le_value(bytes) / pow2(bits * i)) % pow2(bits)) as u32
}

proof fn lemma_masked_bound(vals: Seq<u32>, bits: nat, i: int)
    ensures
        masked(vals, bits, i) < pow2(bits),
{
    lemma_pow2_pos(bits);
}

/// The stream of `n` values fits in `bits * n` bits.
pub proof fn lemma_packed_value_bound(vals: Seq<u32>, bits: nat, n: nat)
    ensures
        packed_value(vals, bits, n) < pow2(bits * n),
    decreases n,
{
    if n == 0 {
        assert(bits * n == 0) by (nonlinear_arith)
            requires n == 0;
        lemma2_to64();
    } else {
        let n1 = (n - 1) as nat;
        lemma_packed_value_bound(vals, bits, n1);
        lemma_masked_bound(vals, bits, n1 as int);
        let m = masked(vals, bits, n1 as int);
        let lo = pow2(bits * n1);
        let hi = pow2(bits);
        lemma_pow2_pos(bits * n1);
        assert(m * lo <= (hi - 1) * lo) by (nonlinear_arith)
            requires m <= hi - 1, lo > 0;
        assert((hi - 1) * lo == lo * hi - lo) by (nonlinear_arith);
        assert(bits * n == bits * n1 + bits) by (nonlinear_arith)
            requires n1 == n - 1;
        lemma_pow2_adds(bits * n1, bits);
        assert(packed_value(vals, bits, n) == packed_value(vals, bits, n1) + m * lo);
        assert(packed_value(vals, bits, n) < lo * hi);
    }
}

/// The stream of `n` values is the stream of the first `k` plus the rest shifted up by `bits * k`.
pub proof fn lemma_packed_split(vals: Seq<u32>, bits: nat, k: nat, n: nat)
    requires
        k <= n,
    ensures
        packed_value(vals, bits, n) == packed_value(vals, bits, k) + pow2(bits * k) * packed_range(vals, bits, k, n),
    decreases n,
{
    if n == k {
        assert(packed_range(vals, bits, k, n) == 0);
        assert(pow2(bits * k) * 0 == 0) by (nonlinear_arith);
    } else {
        let n1 = (n - 1) as nat;
        lemma_packed_split(vals, bits, k, n1);
        let m = masked(vals, bits, n1 as int);
        assert(bits * n1 == bits * k + bits * ((n1 - k) as nat)) by (nonlinear_arith)
            requires k <= n1;
        lemma_pow2_adds(bits * k, bits * ((n1 - k) as nat));
        let a = pow2(bits * k);
        let b = pow2(bits * ((n1 - k) as nat));
        let r = packed_range(vals, bits, k, n1);
        assert(a * r + m * (a * b) == a * (r + m * b)) by (nonlinear_arith);
        assert(packed_range(vals, bits, k, n) == r + m * b);
        assert(packed_value(vals, bits, n) == packed_value(vals, bits, n1) + m * pow2(bits * n1));
    }
}

/// The re-based stream from `k` starts with value `k`, followed by the stream from `k + 1`.
pub proof fn lemma_packed_range_front(vals: Seq<u32>, bits: nat, k: nat, n: nat)
    requires
        k < n,
    ensures
        packed_range(vals, bits, k, n) == masked(vals, bits, k as int) + pow2(bits) * packed_range(vals, bits, k + 1, n),
    decreases n,
{
    if n == k + 1 {
        lemma2_to64();
        assert(bits * ((n - 1 - k) as nat) == 0) by (nonlinear_arith)
            requires n - 1 - k == 0;
        assert(packed_range(vals, bits, k, k) == 0);
        assert(packed_range(vals, bits, k + 1, n) == 0);
        assert(pow2(bits) * 0 == 0) by (nonlinear_arith);
        assert(packed_range(vals, bits, k, n) == masked(vals, bits, k as int) * pow2(0));
    } else {
        let n1 = (n - 1) as nat;
        lemma_packed_range_front(vals, bits, k, n1);
        let m = masked(vals, bits, n1 as int);
        assert(bits * ((n1 - k) as nat) == bits + bits * ((n1 - (k + 1)) as nat)) by (nonlinear_arith)
            requires k + 1 <= n1;
        lemma_pow2_adds(bits, bits * ((n1 - (k + 1)) as nat));
        let p = pow2(bits);
        let q = pow2(bits * ((n1 - (k + 1)) as nat));
        let r = packed_range(vals, bits, k + 1, n1);
        assert(p * r + m * (p * q) == p * (r + m * q)) by (nonlinear_arith);
        assert(packed_range(vals, bits, k + 1, n) == r + m * q);
        assert(packed_range(vals, bits, k, n) == packed_range(vals, bits, k, n1) + m * pow2(bits * ((n1 - k) as nat)));
    }
}

/// Reading value `i` back from the stream of `n > i` values gives that value, masked.
pub proof fn lemma_packed_extract(vals: Seq<u32>, bits: nat, i: nat, n: nat)
    requires
        i < n,
    ensures
        (packed_value(vals, bits, n) / pow2(bits * i)) % pow2(bits) == masked(vals, bits, i as int),
{
    lemma_packed_split(vals, bits, i, n);
    lemma_packed_value_bound(vals, bits, i);
    lemma_pow2_pos(bits * i);
    lemma_pow2_pos(bits);
    let lo = packed_value(vals, bits, i);
    let r = packed_range(vals, bits, i, n);
    lemma_mul_is_commutative(pow2(bits * i) as int, r as int);
    lemma_div_add_multiple(lo, r, pow2(bits * i));
    lemma_basic_div(lo as int, pow2(bits * i) as int);
    assert(lo / pow2(bits * i) == 0);
    lemma_packed_range_front(vals, bits, i, n);
    lemma_mod_add_multiple(masked(vals, bits, i as int), packed_range(vals, bits, i + 1, n), pow2(bits));
    lemma_masked_bound(vals, bits, i as int);
    lemma_small_mod(masked(vals, bits, i as int), pow2(bits));
}


/// Appending one byte to a prefix adds it at the next byte position.
pub proof fn lemma_le_value_take_step(bytes: Seq<u8>, p: nat)
    requires
        p < bytes.len(),
    ensures
        le_value(bytes.take(p as int + 1)) == le_value(bytes.take(p as int)) + (bytes[p as int] as nat) * pow2(8 * p),
{
    assert(bytes.take(p as int + 1).drop_last() =~= bytes.take(p as int));
}

/// `n` bytes spell a number below `2^(8n)`.
pub proof fn lemma_le_value_bound(bytes: Seq<u8>)
    ensures
        le_value(bytes) < pow2(8 * bytes.len()),
    decreases bytes.len(),
{
    lemma2_to64();
    if bytes.len() > 0 {
        let n1 = (bytes.len() - 1) as nat;
        lemma_le_value_bound(bytes.drop_last());
        let lo = pow2(8 * n1);
        let b = bytes.last() as nat;
        lemma_pow2_pos(8 * n1);
        assert(b * lo <= 255 * lo) by (nonlinear_arith)
            requires b <= 255, lo > 0;
        lemma_pow2_adds(8 * n1, 8);
        assert(8 * bytes.len() == 8 * n1 + 8);
    }
}

/// The number spelt by `bytes` is that of its first `p` bytes plus the rest shifted up by `8p`.
pub proof fn lemma_le_value_split(bytes: Seq<u8>, p: nat)
    requires
        p <= bytes.len(),
    ensures
        le_value(bytes) == le_value(bytes.take(p as int)) + pow2(8 * p) * le_value(bytes.skip(p as int)),
    decreases bytes.len(),
{
    if bytes.len() == p {
        assert(bytes.take(p as int) =~= bytes);
        assert(le_value(bytes.skip(p as int)) == 0);
        assert(pow2(8 * p) * 0 == 0) by (nonlinear_arith);
    } else {
        let n1 = (bytes.len() - 1) as nat;
        let d = bytes.drop_last();
        lemma_le_value_split(d, p);
        assert(d.take(p as int) =~= bytes.take(p as int));
        assert(d.skip(p as int) =~= bytes.skip(p as int).drop_last());
        let a = pow2(8 * p);
        let c = pow2(8 * ((n1 - p) as nat));
        lemma_pow2_adds(8 * p, 8 * ((n1 - p) as nat));
        assert(8 * n1 == 8 * p + 8 * ((n1 - p) as nat));
        let r = le_value(d.skip(p as int));
        let b = bytes.last() as nat;
        assert(a * r + b * (a * c) == a * (r + b * c)) by (nonlinear_arith);
        assert(bytes.skip(p as int).last() == bytes.last());
        assert(le_value(bytes.skip(p as int)) == r + b * c);
    }
}

/// The first `n` little-endian bytes of `x` spell `x mod 2^(8n)`.
pub proof fn lemma_le_value_of_le_bytes(x: nat, n: nat)
    ensures
        le_value(Seq::new(n, |j: int| le_byte(x, j as nat))) == x % pow2(8 * n),
    decreases n,
{
    lemma2_to64();
    let s = Seq::new(n, |j: int| le_byte(x, j as nat));
    if n == 0 {
        assert(x % 1 == 0);
    } else {
        let n1 = (n - 1) as nat;
        lemma_le_value_of_le_bytes(x, n1);
        assert(s.drop_last() =~= Seq::new(n1, |j: int| le_byte(x, j as nat)));
        let y = pow2(8 * n1);
        lemma_pow2_pos(8 * n1);
        lemma_pow2_adds(8 * n1, 8);
        assert(8 * n == 8 * n1 + 8);
        lemma_mod_breakdown(x as int, y as int, 256);
        assert(s.last() as nat == (x / y) % 256);
        lemma_mul_is_commutative(y as int, ((x / y) % 256) as int);
    }
}

/// Unpacking what packing wrote gives back every value, masked to `bits` bits.
pub proof fn lemma_bitpack_roundtrip(vals: Seq<u32>, bits: nat, i: nat)
    requires
        i < vals.len(),
    ensures
        unpacked(bitpack_spec(vals, bits), bits, i) as nat == masked(vals, bits, i as int),
{
    let n = vals.len();
    let x = packed_value(vals, bits, n);
    let len = packed_len(n, bits);
    lemma_le_value_of_le_bytes(x, len);
    assert(bitpack_spec(vals, bits) =~= Seq::new(len, |j: int| le_byte(x, j as nat)));
    lemma_packed_value_bound(vals, bits, n);
    assert(bits * n <= 8 * len);
    if bits * n < 8 * len {
        lemma_pow2_strictly_increases(bits * n, 8 * len);
    }
    lemma_small_mod(x, pow2(8 * len));
    lemma_packed_extract(vals, bits, i, n);
    assert(le_value(bitpack_spec(vals, bits)) == x);
    lemma_pow2_pos(bits);
    assert(masked(vals, bits, i as int) <= vals[i as int] as nat) by {
        vstd::arithmetic::div_mod::lemma_mod_decreases(vals[i as int] as nat, pow2(bits));
    }
}


/// `bytes` written over `old` from position `start` on; the rest of `old` kept.
pub open spec fn splice<T>(old: Seq<T>, start: int, bytes: Seq<T>) -> Seq<T> {
    old.take(start) + bytes + old.skip(start + bytes.len())
}

/// An OR of disjoint bit ranges is an addition.
proof fn lemma_or_disjoint_is_add(a: u64, x: u64, s: u64)
    by (bit_vector)
    requires
        s <= 32,
        a < (1u64 << s),
        x < 0x1_0000_0000u64,
    ensures
        a | (x << s) == a + (x << s),
{
}

proof fn lemma_low_byte(b: u64)
    by (bit_vector)
    ensures
        b & 0xFF == b % 256,
        b >> 8 == b / 256,
        (b & 0xFF) < 256,
{
}

/// The mask of the low `bits` bits, as bit-packing computes it.
fn low_mask(bits: u8) -> (mask: u32)
    requires
        bits <= 32,
    ensures
        mask as nat == low_bits_mask(bits as nat),
        forall|v: u32| #[trigger] (v & mask) as nat == v as nat % pow2(bits as nat),
{
    proof {
        lemma2_to64();
        lemma_low_bits_mask_values();
    }
    if bits == 32 {
        proof {
            assert forall|v: u32| #[trigger] (v & u32::MAX) as nat == v as nat % pow2(32) by {
                assert(v & u32::MAX == v) by (bit_vector);
            }
        }
        u32::MAX
    } else {
        proof {
            lemma_u32_pow2_no_overflow(bits as nat);
            lemma_u32_shl_is_mul(1, bits as u32);
        }
        let mask = (1u32 << bits) - 1;
        proof {
            assert forall|v: u32| #[trigger] (v & mask) as nat == v as nat % pow2(bits as nat) by {
                lemma_u32_low_bits_mask_is_mod(v, bits as nat);
            }
        }
        mask
    }
}

/// Feeding value `i` into a buffer that holds the stream above byte `o`.
proof fn lemma_encode_feed(vals: Seq<u32>, bits: nat, i: nat, o: nat)
    requires
        8 * o <= bits * i,
        i < vals.len(),
    ensures
        packed_value(vals, bits, i + 1) / pow2(8 * o)
            == packed_value(vals, bits, i) / pow2(8 * o) + masked(vals, bits, i as int) * pow2((bits * i - 8 * o) as nat),
{
    let p = packed_value(vals, bits, i);
    let m = masked(vals, bits, i as int);
    let e = (bits * i - 8 * o) as nat;
    lemma_pow2_split(bits * i, 8 * o);
    lemma_pow2_pos(8 * o);
    assert(m * pow2(bits * i) == (m * pow2(e)) * pow2(8 * o)) by {
        lemma_mul_is_associative(m as int, pow2(e) as int, pow2(8 * o) as int);
        lemma_mul_is_commutative(pow2(8 * o) as int, pow2(e) as int);
    }
    lemma_div_add_multiple(p, m * pow2(e), pow2(8 * o));
}

/// Byte `o` of the whole stream is already fixed once `bits * i >= 8 * (o + 1)`.
proof fn lemma_encode_byte_fixed(vals: Seq<u32>, bits: nat, i: nat, o: nat)
    requires
        8 * o + 8 <= bits * i,
        i <= vals.len(),
    ensures
        le_byte(packed_value(vals, bits, vals.len()), o) as nat == (packed_value(vals, bits, i) / pow2(8 * o)) % 256,
{
    lemma2_to64();
    lemma_packed_split(vals, bits, i, vals.len());
    lemma_window_ignores_high(packed_value(vals, bits, i), packed_range(vals, bits, i, vals.len()), 8 * o, bits * i, 8);
}

/// Pack the low `bits` bits of each value into a little-endian bit stream written from
/// `out[start]` on; returns the number of bytes written.
fn bitpack_encode_at(values: &[u32], bits: u8, out: &mut [u8], start: usize) -> (written: usize)
    requires
        bits <= 32,
        start + packed_len(values@.len(), bits as nat) <= old(out)@.len(),
    ensures
        written == packed_len(values@.len(), bits as nat),
        final(out)@ == splice(old(out)@, start as int, bitpack_spec(values@, bits as nat)),
{
    let ghost vals = values@;
    let ghost n = vals.len();
    let ghost b = bits as nat;
    let ghost total = packed_value(vals, b, n);
    let mask = low_mask(bits);
    let mut buffer: u64 = 0;
    let mut buf_bits: u64 = 0;
    let mut out_pos: usize = start;
    let mut i: usize = 0;
    proof {
        lemma2_to64();
        assert(b * 0 == 0) by (nonlinear_arith);
    }
    while i < values.len()
        invariant
            vals == values@,
            n == vals.len(),
            b == bits as nat,
            bits <= 32,
            total == packed_value(vals, b, n),
            i <= n,
            start <= out_pos,
            start + packed_len(n, b) <= out@.len(),
            out@.len() == old(out)@.len(),
            buf_bits < 8,
            buf_bits + 8 * (out_pos - start) == b * i,
            buffer == packed_value(vals, b, i as nat) / pow2(8 * (out_pos - start) as nat),
            forall|j: int| start <= j < out_pos ==> out@[j] == le_byte(total, (j - start) as nat),
            forall|j: int| 0 <= j < start || out_pos <= j < out@.len() ==> out@[j] == old(out)@[j],
            forall|v: u32| #[trigger] (v & mask) as nat == v as nat % pow2(bits as nat),
        decreases n - i,
    {
        let ghost o = (out_pos - start) as nat;
        let val = values[i];
        let piece = (val & mask) as u64;
        proof {
            lemma2_to64();
            lemma_pow2_pos(b);
            lemma_u64_pow2_no_overflow(buf_bits as nat);
            lemma_packed_value_bound(vals, b, i as nat);
            lemma_div_pow2_bound(packed_value(vals, b, i as nat), b * (i as nat), 8 * o);
            lemma_u64_shl_is_mul(1, buf_bits);
            assert(piece < 0x1_0000_0000u64);
            lemma_or_disjoint_is_add(buffer, piece, buf_bits);
            assert(pow2(buf_bits as nat) <= 128) by {
                if buf_bits < 7 {
                    lemma_pow2_strictly_increases(buf_bits as nat, 7);
                }
            }
            assert(piece * pow2(buf_bits as nat) <= 0xFFFF_FFFF * 128) by (nonlinear_arith)
                requires piece <= 0xFFFF_FFFF, pow2(buf_bits as nat) <= 128;
            lemma_u64_shl_is_mul(piece, buf_bits);
            lemma_encode_feed(vals, b, i as nat, o);
            assert(buf_bits as nat == (b * i - 8 * o) as nat);
        }
        buffer = buffer | (piece << buf_bits);
        buf_bits = buf_bits + bits as u64;
        i = i + 1;
        proof {
            assert(b * i == b * (i - 1) + b) by (nonlinear_arith)
                requires i >= 1;
        }
        while buf_bits >= 8
            invariant
                vals == values@,
                n == vals.len(),
                b == bits as nat,
                bits <= 32,
                total == packed_value(vals, b, n),
                1 <= i <= n,
                start <= out_pos,
                start + packed_len(n, b) <= out@.len(),
                out@.len() == old(out)@.len(),
                buf_bits < 8 + 32,
                buf_bits + 8 * (out_pos - start) == b * i,
                buffer == packed_value(vals, b, i as nat) / pow2(8 * (out_pos - start) as nat),
                forall|j: int| start <= j < out_pos ==> out@[j] == le_byte(total, (j - start) as nat),
                forall|j: int| 0 <= j < start || out_pos <= j < out@.len() ==> out@[j] == old(out)@[j],
                forall|v: u32| #[trigger] (v & mask) as nat == v as nat % pow2(bits as nat),
            decreases buf_bits,
        {
            let ghost o = (out_pos - start) as nat;
            proof {
                lemma2_to64();
                lemma_low_byte(buffer);
                lemma_encode_byte_fixed(vals, b, i as nat, o);
                lemma_div_pow2_twice(packed_value(vals, b, i as nat), 8 * o, 8);
                assert(b * i <= b * n) by (nonlinear_arith)
                    requires i <= n;
            }
            out[out_pos] = (buffer & 0xFF) as u8;
            out_pos = out_pos + 1;
            buffer = buffer >> 8;
            buf_bits = buf_bits - 8;
            proof {
                assert(8 * o + 8 == 8 * ((out_pos - start) as nat));
            }
        }
    }
    let ghost o = (out_pos - start) as nat;
    proof {
        assert(i == n);
        assert(buf_bits + 8 * o == b * n);
        assert(packed_len(n, b) == (buf_bits + 8 * o + 7) / 8);
    }
    if buf_bits > 0 {
        proof {
            lemma_low_byte(buffer);
            lemma_packed_value_bound(vals, b, n);
            lemma_div_pow2_bound(total, b * n, 8 * o);
            assert(pow2(buf_bits as nat) <= 128) by {
                if buf_bits < 7 {
                    lemma_pow2_strictly_increases(buf_bits as nat, 7);
                }
            }
            lemma_small_mod(buffer as nat, 256);
        }
        out[out_pos] = (buffer & 0xFF) as u8;
        out_pos = out_pos + 1;
    }
    let written = out_pos - start;
    proof {
        let spec = bitpack_spec(vals, b);
        assert(written == packed_len(n, b));
        assert(out@ =~= splice(old(out)@, start as int, spec));
    }
    written
}


proof fn lemma_truncate_and_mask(x: u64, m: u32)
    by (bit_vector)
    ensures
        ((x as u32) & m) as u64 == x & (m as u64),
{
}

/// Unpack `min(count, out.len())` values of `bits` bits each from the little-endian bit
/// stream that starts at `input[start]`.
fn bitpack_decode_at(input: &[u8], start: usize, count: usize, bits: u8, out: &mut [u32])
    requires
        bits <= 32,
        start <= input@.len(),
        start + packed_len(if count <= old(out)@.len() { count as nat } else { old(out)@.len() }, bits as nat)
            <= input@.len(),
    ensures
        final(out)@.len() == old(out)@.len(),
        forall|i: int| 0 <= i < count && i < old(out)@.len()
            ==> final(out)@[i] == unpacked(input@.skip(start as int), bits as nat, i as nat),
        forall|i: int| count <= i < old(out)@.len() ==> final(out)@[i] == old(out)@[i],
{
    let ghost src = input@.skip(start as int);
    let ghost b = bits as nat;
    let n: usize = if count <= out.len() { count } else { out.len() };
    let mask = low_mask(bits);
    let mut buffer: u64 = 0;
    let mut buf_bits: u64 = 0;
    let mut in_pos: usize = start;
    let mut i: usize = 0;
    proof {
        lemma2_to64();
        assert(b * 0 == 0) by (nonlinear_arith);
        assert(src.take(0) =~= Seq::<u8>::empty());
    }
    while i < n
        invariant
            src == input@.skip(start as int),
            b == bits as nat,
            bits <= 32,
            n <= count,
            n <= out@.len(),
            n == count || n == out@.len(),
            start + packed_len(n as nat, b) <= input@.len(),
            start <= in_pos <= input@.len(),
            i <= n,
            out@.len() == old(out)@.len(),
            buf_bits < 8,
            buf_bits + b * i == 8 * (in_pos - start),
            buffer == le_value(src.take(in_pos - start)) / pow2(b * (i as nat)),
            forall|j: int| 0 <= j < i ==> out@[j] == unpacked(src, b, j as nat),
            forall|j: int| i <= j < out@.len() ==> out@[j] == old(out)@[j],
            forall|v: u32| #[trigger] (v & mask) as nat == v as nat % pow2(bits as nat),
            mask as nat == low_bits_mask(bits as nat),
        decreases n - i,
    {
        while buf_bits < bits as u64
            invariant
                src == input@.skip(start as int),
                b == bits as nat,
                bits <= 32,
                n <= count,
                n <= out@.len(),
                start + packed_len(n as nat, b) <= input@.len(),
                start <= in_pos <= input@.len(),
                i < n,
                out@.len() == old(out)@.len(),
                buf_bits < b + 8,
                buf_bits + b * i == 8 * (in_pos - start),
                buffer == le_value(src.take(in_pos - start)) / pow2(b * (i as nat)),
            decreases b + 8 - buf_bits,
        {
            let ghost p = (in_pos - start) as nat;
            proof {
                lemma2_to64();
                assert(b * i + b <= b * n) by (nonlinear_arith)
                    requires i < n;
                assert((n as nat) * b == b * (n as nat)) by (nonlinear_arith);
                assert(in_pos < input@.len());
                lemma_le_value_bound(src.take(p as int));
                lemma_div_pow2_bound(le_value(src.take(p as int)), 8 * p, b * (i as nat));
                lemma_u64_pow2_no_overflow(buf_bits as nat);
                lemma_u64_shl_is_mul(1, buf_bits);
                lemma_or_disjoint_is_add(buffer, input[in_pos as int] as u64, buf_bits);
                assert(pow2(buf_bits as nat) <= 0x8000_0000) by {
                    if buf_bits < 31 {
                        lemma_pow2_strictly_increases(buf_bits as nat, 31);
                    }
                }
                assert((input[in_pos as int] as u64) * pow2(buf_bits as nat) <= 255 * 0x8000_0000) by (nonlinear_arith)
                    requires input[in_pos as int] <= 255, pow2(buf_bits as nat) <= 0x8000_0000;
                lemma_u64_shl_is_mul(input[in_pos as int] as u64, buf_bits);
                lemma_le_value_take_step(src, p);
                assert(src[p as int] == input@[in_pos as int]);
                lemma_div_add_shifted(le_value(src.take(p as int)), src[p as int] as nat, 8 * p, b * (i as nat));
            }
            buffer = buffer | ((input[in_pos] as u64) << buf_bits);
            in_pos = in_pos + 1;
            buf_bits = buf_bits + 8;
        }
        let ghost p = (in_pos - start) as nat;
        proof {
            lemma_le_value_bound(src.take(p as int));
            lemma_truncate_and_mask(buffer, mask);
            lemma_u64_low_bits_mask_is_mod(buffer, b);
            lemma_le_value_split(src, p);
            assert(src.skip(0) == src);
            lemma_window_ignores_high(le_value(src.take(p as int)), le_value(src.skip(p as int)), b * (i as nat), 8 * p, b);
            lemma_u64_shr_is_div(buffer, bits as u64);
            lemma_div_pow2_twice(le_value(src.take(p as int)), b * (i as nat), b);
            assert(b * (i as nat) + b == b * ((i + 1) as nat)) by (nonlinear_arith);
            lemma2_to64();
            lemma_pow2_pos(b);
        }
        out[i] = ((buffer as u32) & mask);
        buffer = buffer >> (bits as u64);
        buf_bits = buf_bits - bits as u64;
        i = i + 1;
    }
}

/// Pack the low `bits` bits of each value into a little-endian bit stream.
/// Returns the number of bytes written.
pub fn bitpack_encode(values: &[u32], bits: u8, out: &mut [u8]) -> (written: usize)
    requires
        bits <= 32,
        packed_len(values@.len(), bits as nat) <= old(out)@.len(),
    ensures
        written == packed_len(values@.len(), bits as nat),
        final(out)@ == splice(old(out)@, 0, bitpack_spec(values@, bits as nat)),
{
    bitpack_encode_at(values, bits, out, 0)
}

/// Unpack a bit stream into an array of values: the first `min(count, out.len())`
/// values of `bits` bits each.
pub fn bitpack_decode(input: &[u8], count: usize, bits: u8, out: &mut [u32])
    requires
        bits <= 32,
        packed_len(if count <= old(out)@.len() { count as nat } else { old(out)@.len() }, bits as nat)
            <= input@.len(),
    ensures
        final(out)@.len() == old(out)@.len(),
        forall|i: int| 0 <= i < count && i < old(out)@.len()
            ==> final(out)@[i] == unpacked(input@, bits as nat, i as nat),
        forall|i: int| count <= i < old(out)@.len() ==> final(out)@[i] == old(out)@[i],
{
    proof {
        assert(input@.skip(0) =~= input@);
    }
    bitpack_decode_at(input, 0, count, bits, out);
}


/// Largest element of `s`; zero for the empty sequence.
pub open spec fn seq_max(s: Seq<u32>) -> u32
    decreases s.len(),
{
    if s.len() == 0 {
        0
    } else if seq_max(s.drop_last()) >= s.last() {
        seq_max(s.drop_last())
    } else {
        s.last()
    }
}

pub proof fn lemma_seq_max_bound(s: Seq<u32>, i: int)
    requires
        0 <= i < s.len(),
    ensures
        s[i] <= seq_max(s),
    decreases s.len(),
{
    if i < s.len() - 1 {
        lemma_seq_max_bound(s.drop_last(), i);
    }
}

/// Doc ids in non-decreasing order, as a term's posting list keeps them.
pub open spec fn sorted_by_doc_id(p: Seq<TpBlockPosting>) -> bool {
    forall|i: int, j: int| 0 <= i <= j < p.len() ==> p[i].doc_id <= p[j].doc_id
}

/// First doc id as-is, then the gap to the previous one.
pub open spec fn block_doc_deltas(p: Seq<TpBlockPosting>) -> Seq<u32> {
    Seq::new(p.len(), |i: int| if i == 0 { p[0].doc_id } else { (p[i].doc_id - p[i - 1].doc_id) as u32 })
}

pub open spec fn block_freqs(p: Seq<TpBlockPosting>) -> Seq<u32> {
    Seq::new(p.len(), |i: int| p[i].frequency as u32)
}

pub open spec fn block_fieldnorms(p: Seq<TpBlockPosting>) -> Seq<u8> {
    Seq::new(p.len(), |i: int| p[i].fieldnorm)
}

pub open spec fn delta_bits(p: Seq<TpBlockPosting>) -> nat {
    bit_width(seq_max(block_doc_deltas(p)) as nat)
}

pub open spec fn freq_bits(p: Seq<TpBlockPosting>) -> nat {
    bit_width(seq_max(block_freqs(p)) as nat)
}

/// The bytes of a compressed block: the two bit widths, the packed doc id deltas,
/// the packed frequencies, then the fieldnorms as they are. Empty for no postings.
pub open spec fn compressed_block_spec(p: Seq<TpBlockPosting>) -> Seq<u8> {
    if p.len() == 0 {
        Seq::empty()
    } else {
        seq![delta_bits(p) as u8, freq_bits(p) as u8]
            + bitpack_spec(block_doc_deltas(p), delta_bits(p))
            + bitpack_spec(block_freqs(p), freq_bits(p))
            + block_fieldnorms(p)
    }
}

/// Size in bytes of a compressed block of `count` postings with the given bit widths.
pub open spec fn block_size_spec(count: nat, doc_id_bits: nat, freq_bits: nat) -> nat {
    if count == 0 {
        0
    } else {
        TP_COMPRESSED_HEADER_SIZE as nat + packed_len(count, doc_id_bits) + packed_len(count, freq_bits) + count
    }
}

proof fn lemma_bit_width_le(v: nat, e: nat)
    requires
        e >= 1,
        v < pow2(e),
    ensures
        bit_width(v) <= e,
{
    lemma_bit_width_characterized(v);
    let r = bit_width(v);
    if r > e {
        if r - 1 > e {
            lemma_pow2_strictly_increases(e, (r - 1) as nat);
        }
    }
}

/// Bit widths of a block: deltas fit 32 bits, frequencies 16.
pub proof fn lemma_block_bit_widths(p: Seq<TpBlockPosting>)
    ensures
        1 <= delta_bits(p) <= 32,
        1 <= freq_bits(p) <= 16,
{
    lemma2_to64();
    lemma_bit_width_characterized(seq_max(block_doc_deltas(p)) as nat);
    lemma_bit_width_le(seq_max(block_doc_deltas(p)) as nat, 32);
    lemma_bit_width_characterized(seq_max(block_freqs(p)) as nat);
    if p.len() > 0 {
        assert(seq_max(block_freqs(p)) < 0x10000) by {
            lemma_seq_max_in(block_freqs(p));
        }
    } else {
        assert(block_freqs(p).len() == 0);
    }
    lemma_bit_width_le(seq_max(block_freqs(p)) as nat, 16);
}

/// The maximum of a non-empty sequence is one of its elements.
pub proof fn lemma_seq_max_in(s: Seq<u32>)
    requires
        s.len() > 0,
    ensures
        exists|i: int| 0 <= i < s.len() && s[i] == seq_max(s),
    decreases s.len(),
{
    if s.len() == 1 {
        assert(s.drop_last().len() == 0);
        assert(seq_max(s.drop_last()) == 0);
        assert(s.last() == s[0]);
        assert(s[0] == seq_max(s));
    } else {
        lemma_seq_max_in(s.drop_last());
        let i = choose|i: int| 0 <= i < s.drop_last().len() && s.drop_last()[i] == seq_max(s.drop_last());
        assert(s[i] == s.drop_last()[i]);
        assert(s[s.len() - 1] == s.last());
    }
}


/// A block of at most `TP_BLOCK_SIZE` postings compresses into at most
/// `TP_MAX_COMPRESSED_BLOCK_SIZE` bytes.
pub proof fn lemma_compressed_block_fits(p: Seq<TpBlockPosting>)
    requires
        p.len() <= TP_BLOCK_SIZE,
    ensures
        compressed_block_spec(p).len() <= TP_MAX_COMPRESSED_BLOCK_SIZE,
{
    lemma_block_bit_widths(p);
    let n = p.len();
    assert(n * delta_bits(p) <= 128 * 32) by (nonlinear_arith)
        requires n <= 128, delta_bits(p) <= 32;
    assert(n * freq_bits(p) <= 128 * 16) by (nonlinear_arith)
        requires n <= 128, freq_bits(p) <= 16;
}


/// Compress a block of postings.
///
/// Steps:
/// 1. Delta-encode doc IDs (first doc ID stored as-is, rest as deltas)
/// 2. Find max delta and max frequency to determine bit widths
/// 3. Bitpack deltas and frequencies
/// 4. Copy fieldnorms as-is
///
/// Returns number of bytes written to `out_buf`.
pub fn compress_block(postings: &[TpBlockPosting], out_buf: &mut [u8]) -> (written: usize)
    requires
        postings@.len() <= TP_BLOCK_SIZE,
        sorted_by_doc_id(postings@),
        compressed_block_spec(postings@).len() <= old(out_buf)@.len(),
    ensures
        written == compressed_block_spec(postings@).len(),
        final(out_buf)@ == splice(old(out_buf)@, 0, compressed_block_spec(postings@)),
{
    let ghost p = postings@;
    let count = postings.len();
    if count == 0 {
        proof {
            assert(old(out_buf)@ =~= splice(old(out_buf)@, 0, compressed_block_spec(p)));
        }
        return 0;
    }
    let mut doc_deltas: Vec<u32> = Vec::new();
    let mut frequencies: Vec<u32> = Vec::new();
    let mut max_delta: u32 = 0;
    let mut max_freq: u32 = 0;
    let mut prev_doc: u32 = 0;
    let mut i: usize = 0;
    while i < count
        invariant
            p == postings@,
            count == p.len(),
            sorted_by_doc_id(p),
            i <= count,
            doc_deltas@ == block_doc_deltas(p).take(i as int),
            frequencies@ == block_freqs(p).take(i as int),
            max_delta == seq_max(block_doc_deltas(p).take(i as int)),
            max_freq == seq_max(block_freqs(p).take(i as int)),
            i > 0 ==> prev_doc == p[i - 1].doc_id,
            i == 0 ==> prev_doc == 0,
        decreases count - i,
    {
        let doc_id = postings[i].doc_id;
        let delta = doc_id - prev_doc;
        let freq = postings[i].frequency as u32;
        proof {
            assert(block_doc_deltas(p).take(i + 1).drop_last() =~= block_doc_deltas(p).take(i as int));
            assert(block_freqs(p).take(i + 1).drop_last() =~= block_freqs(p).take(i as int));
        }
        doc_deltas.push(delta);
        frequencies.push(freq);
        if delta > max_delta {
            max_delta = delta;
        }
        if freq > max_freq {
            max_freq = freq;
        }
        prev_doc = doc_id;
        i = i + 1;
        proof {
            assert(doc_deltas@ =~= block_doc_deltas(p).take(i as int));
            assert(frequencies@ =~= block_freqs(p).take(i as int));
        }
    }
    proof {
        assert(block_doc_deltas(p).take(count as int) =~= block_doc_deltas(p));
        assert(block_freqs(p).take(count as int) =~= block_freqs(p));
        lemma_block_bit_widths(p);
    }
    let doc_id_bits = compute_bit_width(max_delta);
    let freq_bits = compute_bit_width(max_freq);
    let ghost header = seq![doc_id_bits, freq_bits];
    let ghost packed_deltas = bitpack_spec(doc_deltas@, doc_id_bits as nat);
    let ghost packed_freqs = bitpack_spec(frequencies@, freq_bits as nat);
    let ghost norms = block_fieldnorms(p);
    out_buf[0] = doc_id_bits;
    out_buf[1] = freq_bits;
    let mut out_pos: usize = TP_COMPRESSED_HEADER_SIZE;
    proof {
        assert(out_buf@ =~= splice(old(out_buf)@, 0, header));
    }
    let n1 = bitpack_encode_at(doc_deltas.as_slice(), doc_id_bits, out_buf, out_pos);
    out_pos = out_pos + n1;
    proof {
        assert(out_buf@ =~= splice(old(out_buf)@, 0, header + packed_deltas));
    }
    let n2 = bitpack_encode_at(frequencies.as_slice(), freq_bits, out_buf, out_pos);
    out_pos = out_pos + n2;
    let ghost front = header + packed_deltas + packed_freqs;
    proof {
        assert(out_buf@ =~= splice(old(out_buf)@, 0, front));
        assert(front.len() == out_pos);
    }
    let mut k: usize = 0;
    while k < count
        invariant
            p == postings@,
            count == p.len(),
            norms == block_fieldnorms(p),
            k <= count,
            out_pos == front.len() + k,
            front.len() + count <= old(out_buf)@.len(),
            out_buf@ == splice(old(out_buf)@, 0, front + norms.take(k as int)),
        decreases count - k,
    {
        out_buf[out_pos] = postings[k].fieldnorm;
        out_pos = out_pos + 1;
        k = k + 1;
        proof {
            assert(out_buf@ =~= splice(old(out_buf)@, 0, front + norms.take(k as int)));
        }
    }
    proof {
        assert(norms.take(count as int) =~= norms);
        assert(compressed_block_spec(p) =~= front + norms);
    }
    out_pos
}


/// `base` plus the first `k` elements of `s`.
pub open spec fn running_sum(base: nat, s: Seq<u32>, k: nat) -> nat
    decreases k,
{
    if k == 0 {
        base
    } else {
        running_sum(base, s, (k - 1) as nat) + s[k - 1] as nat
    }
}

pub proof fn lemma_running_sum_monotonic(base: nat, s: Seq<u32>, k: nat, n: nat)
    requires
        k <= n,
    ensures
        running_sum(base, s, k) <= running_sum(base, s, n),
    decreases n,
{
    if k < n {
        lemma_running_sum_monotonic(base, s, k, (n - 1) as nat);
    }
}

/// Offset of the packed frequencies in a compressed block of `count` postings.
pub open spec fn freqs_start(c: Seq<u8>, count: nat) -> nat {
    TP_COMPRESSED_HEADER_SIZE as nat + packed_len(count, c[0] as nat)
}

/// Offset of the fieldnorms in a compressed block of `count` postings.
pub open spec fn norms_start(c: Seq<u8>, count: nat) -> nat {
    freqs_start(c, count) + packed_len(count, c[1] as nat)
}

/// The doc id deltas that a compressed block holds.
pub open spec fn decoded_deltas(c: Seq<u8>, count: nat) -> Seq<u32> {
    Seq::new(count, |i: int| unpacked(c.skip(TP_COMPRESSED_HEADER_SIZE as int), c[0] as nat, i as nat))
}

/// The frequencies that a compressed block holds.
pub open spec fn decoded_freqs(c: Seq<u8>, count: nat) -> Seq<u32> {
    Seq::new(count, |i: int| unpacked(c.skip(freqs_start(c, count) as int), c[1] as nat, i as nat))
}

/// What decompression accepts: at most a block of postings, bit widths as compression
/// writes them, enough bytes, and doc ids that stay within `u32`.
pub open spec fn decompress_ok(c: Seq<u8>, count: nat, first_doc_id: u32) -> bool {
    &&& count <= TP_BLOCK_SIZE
    &&& count > 0 ==> {
        &&& c.len() >= TP_COMPRESSED_HEADER_SIZE
        &&& 1 <= c[0] <= 32
        &&& 1 <= c[1] <= 16
        &&& block_size_spec(count, c[0] as nat, c[1] as nat) <= c.len()
        &&& running_sum(first_doc_id as nat, decoded_deltas(c, count), count) <= u32::MAX
    }
}

/// The postings that a compressed block of `count` postings decodes to, doc ids
/// rebuilt as running sums of the deltas from `first_doc_id`.
pub open spec fn decompressed_block_spec(c: Seq<u8>, count: nat, first_doc_id: u32) -> Seq<TpBlockPosting> {
    Seq::new(count, |i: int| TpBlockPosting {
        doc_id: running_sum(first_doc_id as nat, decoded_deltas(c, count), (i + 1) as nat) as u32,
        frequency: decoded_freqs(c, count)[i] as u16,
        fieldnorm: c[norms_start(c, count) + i],
        reserved: 0,
    })
}

/// `ceil(x / 8)`.
fn div_ceil8(x: u32) -> (r: u32)
    ensures
        r == (x as nat + 7) / 8,
{
    let q = x / 8;
    if x % 8 != 0 {
        q + 1
    } else {
        q
    }
}

/// Decompress a block of postings.
///
/// `first_doc_id` is the base for delta decoding. For the first block
/// of a term, pass 0. The first delta IS the first absolute doc ID.
pub fn decompress_block(
    compressed: &[u8],
    count: usize,
    first_doc_id: u32,
    out_postings: &mut [TpBlockPosting],
)
    requires
        decompress_ok(compressed@, count as nat, first_doc_id),
        count <= old(out_postings)@.len() || count == 0,
    ensures
        final(out_postings)@ == splice(old(out_postings)@, 0, decompressed_block_spec(compressed@, count as nat, first_doc_id)),
{
    let ghost c = compressed@;
    if count == 0 {
        proof {
            assert(old(out_postings)@ =~= splice(old(out_postings)@, 0, decompressed_block_spec(c, 0, first_doc_id)));
        }
        return;
    }
    let doc_id_bits = compressed[0];
    let freq_bits = compressed[1];
    let mut doc_deltas = vec![0u32; count];
    let mut frequencies = vec![0u32; count];
    proof {
        assert((count as nat) * (doc_id_bits as nat) <= 128 * 32) by (nonlinear_arith)
            requires count <= 128, doc_id_bits <= 32;
        assert((count as nat) * (freq_bits as nat) <= 128 * 32) by (nonlinear_arith)
            requires count <= 128, freq_bits <= 32;
    }
    let doc_id_bytes = div_ceil8(count as u32 * doc_id_bits as u32);
    let freq_bytes = div_ceil8(count as u32 * freq_bits as u32);
    bitpack_decode_at(compressed, TP_COMPRESSED_HEADER_SIZE, count, doc_id_bits, doc_deltas.as_mut_slice());
    let freq_start = TP_COMPRESSED_HEADER_SIZE + doc_id_bytes as usize;
    bitpack_decode_at(compressed, freq_start, count, freq_bits, frequencies.as_mut_slice());
    let fieldnorm_start = freq_start + freq_bytes as usize;
    let ghost dd = decoded_deltas(c, count as nat);
    let ghost spec = decompressed_block_spec(c, count as nat, first_doc_id);
    proof {
        assert(doc_deltas@ =~= dd);
        assert(frequencies@ =~= decoded_freqs(c, count as nat));
    }
    let mut prev_doc = first_doc_id;
    let mut i: usize = 0;
    while i < count
        invariant
            c == compressed@,
            decompress_ok(c, count as nat, first_doc_id),
            0 < count <= out_postings@.len(),
            out_postings@.len() == old(out_postings)@.len(),
            dd == decoded_deltas(c, count as nat),
            spec == decompressed_block_spec(c, count as nat, first_doc_id),
            doc_deltas@ == dd,
            frequencies@ == decoded_freqs(c, count as nat),
            fieldnorm_start == norms_start(c, count as nat),
            norms_start(c, count as nat) + count <= c.len(),
            i <= count,
            prev_doc == running_sum(first_doc_id as nat, dd, i as nat),
            out_postings@ == splice(old(out_postings)@, 0, spec.take(i as int)),
        decreases count - i,
    {
        proof {
            lemma_running_sum_monotonic(first_doc_id as nat, dd, (i + 1) as nat, count as nat);
            assert(fieldnorm_start + i < c.len());
            assert(c.len() == compressed.len());
        }
        let doc_id = prev_doc + doc_deltas[i];
        out_postings[i] = TpBlockPosting {
            doc_id,
            frequency: frequencies[i] as u16,
            fieldnorm: compressed[fieldnorm_start + i],
            reserved: 0,
        };
        prev_doc = doc_id;
        i = i + 1;
        proof {
            assert(out_postings@ =~= splice(old(out_postings)@, 0, spec.take(i as int)));
        }
    }
    proof {
        assert(spec.take(count as int) =~= spec);
    }
}

/// Whether `decompress_block` can decode `count` postings from `compressed`: at most a
/// block of postings, bit widths as compression writes them, enough bytes, and doc ids
/// that stay within `u32`.
pub fn can_decompress_block(compressed: &[u8], count: usize, first_doc_id: u32) -> (ok: bool)
    ensures
        ok == decompress_ok(compressed@, count as nat, first_doc_id),
{
    let ghost c = compressed@;
    if count > 128 {
        return false;
    }
    if count == 0 {
        return true;
    }
    if compressed.len() < TP_COMPRESSED_HEADER_SIZE {
        return false;
    }
    let doc_id_bits = compressed[0];
    let freq_bits = compressed[1];
    if doc_id_bits < 1 || doc_id_bits > 32 || freq_bits < 1 || freq_bits > 16 {
        return false;
    }
    proof {
        assert((count as nat) * (doc_id_bits as nat) <= 128 * 32) by (nonlinear_arith)
            requires count <= 128, doc_id_bits <= 32;
        assert((count as nat) * (freq_bits as nat) <= 128 * 32) by (nonlinear_arith)
            requires count <= 128, freq_bits <= 32;
    }
    let doc_id_bytes = div_ceil8(count as u32 * doc_id_bits as u32);
    let freq_bytes = div_ceil8(count as u32 * freq_bits as u32);
    let size = TP_COMPRESSED_HEADER_SIZE + doc_id_bytes as usize + freq_bytes as usize + count;
    if size > compressed.len() {
        return false;
    }
    let mut doc_deltas = vec![0u32; count];
    bitpack_decode_at(compressed, TP_COMPRESSED_HEADER_SIZE, count, doc_id_bits, doc_deltas.as_mut_slice());
    let ghost dd = decoded_deltas(c, count as nat);
    proof {
        assert(doc_deltas@ =~= dd);
    }
    let mut sum: u64 = first_doc_id as u64;
    let mut i: usize = 0;
    while i < count
        invariant
            count <= 128,
            doc_deltas@ == dd,
            dd.len() == count,
            i <= count,
            sum == running_sum(first_doc_id as nat, dd, i as nat),
            sum <= u32::MAX + i * u32::MAX,
        decreases count - i,
    {
        sum = sum + doc_deltas[i] as u64;
        i = i + 1;
    }
    sum <= u32::MAX as u64
}

/// Get the size of compressed data without decompressing: the size that the
/// header's bit widths give for `count` postings.
pub fn compressed_block_size(compressed: &[u8], count: u32) -> (size: u32)
    requires
        count > 0 ==> {
            &&& compressed@.len() >= TP_COMPRESSED_HEADER_SIZE
            &&& count * compressed@[0] <= u32::MAX
            &&& count * compressed@[1] <= u32::MAX
            &&& block_size_spec(count as nat, compressed@[0] as nat, compressed@[1] as nat) <= u32::MAX
        },
    ensures
        size == block_size_spec(count as nat, compressed@[0] as nat, compressed@[1] as nat),
{
    if count == 0 {
        return 0;
    }
    let doc_id_bits = compressed[0] as u32;
    let freq_bits = compressed[1] as u32;
    let header_size = TP_COMPRESSED_HEADER_SIZE as u32;
    let doc_id_bytes = div_ceil8(count * doc_id_bits);
    let freq_bytes = div_ceil8(count * freq_bits);
    header_size + doc_id_bytes + freq_bytes + count
}


/// Bytes after the packed stream do not change what unpacking reads from it.
pub proof fn lemma_unpacked_prefix(a: Seq<u8>, r: Seq<u8>, bits: nat, i: nat)
    requires
        bits * i + bits <= 8 * a.len(),
    ensures
        unpacked(a + r, bits, i) == unpacked(a, bits, i),
{
    let ar = a + r;
    lemma_le_value_split(ar, a.len());
    assert(ar.take(a.len() as int) =~= a);
    assert(ar.skip(a.len() as int) =~= r);
    lemma_window_ignores_high(le_value(a), le_value(r), bits * i, 8 * a.len(), bits);
}

/// The running sums of a sorted block's deltas are its doc ids.
proof fn lemma_running_sum_of_deltas(p: Seq<TpBlockPosting>, k: nat)
    requires
        sorted_by_doc_id(p),
        1 <= k <= p.len(),
    ensures
        running_sum(0, block_doc_deltas(p), k) == p[k - 1].doc_id,
    decreases k,
{
    let d = block_doc_deltas(p);
    if k == 1 {
        assert(running_sum(0, d, 0) == 0);
        assert(d[0] == p[0].doc_id);
    } else {
        lemma_running_sum_of_deltas(p, (k - 1) as nat);
        assert(p[k - 2].doc_id <= p[k - 1].doc_id);
        assert(d[k - 1] == p[k - 1].doc_id - p[k - 2].doc_id);
    }
}

/// A value that fits `bits` bits packs and unpacks to itself.
proof fn lemma_block_value_roundtrip(vals: Seq<u32>, bits: nat, tail: Seq<u8>, i: nat)
    requires
        i < vals.len(),
        is_bit_width(seq_max(vals) as nat, bits),
    ensures
        unpacked(bitpack_spec(vals, bits) + tail, bits, i) == vals[i as int],
{
    let n = vals.len();
    assert(bits * i + bits <= bits * n) by (nonlinear_arith)
        requires i < n;
    assert(n * bits == bits * n) by (nonlinear_arith);
    lemma_unpacked_prefix(bitpack_spec(vals, bits), tail, bits, i);
    lemma_bitpack_roundtrip(vals, bits, i);
    lemma_seq_max_bound(vals, i as int);
    lemma_small_mod(vals[i as int] as nat, pow2(bits));
}

/// Decompressing a compressed block gives back its postings, with the reserved
/// byte cleared; the block meets everything that decompression asks of its input.
pub proof fn lemma_block_roundtrip(p: Seq<TpBlockPosting>)
    requires
        0 < p.len() <= TP_BLOCK_SIZE,
        sorted_by_doc_id(p),
    ensures
        decompress_ok(compressed_block_spec(p), p.len(), 0),
        decompressed_block_spec(compressed_block_spec(p), p.len(), 0)
            == Seq::new(p.len(), |i: int| TpBlockPosting { reserved: 0, ..p[i] }),
{
    let n = p.len();
    let db = delta_bits(p);
    let fb = freq_bits(p);
    lemma_block_bit_widths(p);
    lemma_bit_width_characterized(seq_max(block_doc_deltas(p)) as nat);
    lemma_bit_width_characterized(seq_max(block_freqs(p)) as nat);
    let h = seq![db as u8, fb as u8];
    let a = bitpack_spec(block_doc_deltas(p), db);
    let b = bitpack_spec(block_freqs(p), fb);
    let f = block_fieldnorms(p);
    let c = compressed_block_spec(p);
    assert(c == h + a + b + f);
    assert(c[0] == db as u8);
    assert(c[1] == fb as u8);
    assert(c.skip(TP_COMPRESSED_HEADER_SIZE as int) =~= a + (b + f));
    assert(freqs_start(c, n) == 2 + a.len());
    assert(c.skip(freqs_start(c, n) as int) =~= b + f);
    assert(norms_start(c, n) == 2 + a.len() + b.len());
    let dd = decoded_deltas(c, n);
    assert forall|i: int| 0 <= i < n implies dd[i] == block_doc_deltas(p)[i] by {
        lemma_block_value_roundtrip(block_doc_deltas(p), db, b + f, i as nat);
    }
    assert(dd =~= block_doc_deltas(p));
    assert forall|i: int| 0 <= i < n implies decoded_freqs(c, n)[i] == block_freqs(p)[i] by {
        lemma_block_value_roundtrip(block_freqs(p), fb, f, i as nat);
    }
    lemma_running_sum_of_deltas(p, n);
    assert forall|i: int| 0 <= i < n implies running_sum(0, dd, (i + 1) as nat) == p[i].doc_id by {
        lemma_running_sum_of_deltas(p, (i + 1) as nat);
    }
    assert forall|i: int| 0 <= i < n implies c[norms_start(c, n) + i] == p[i].fieldnorm by {
        assert(c[norms_start(c, n) + i] == f[i]);
    }
    let expect = Seq::new(n, |i: int| TpBlockPosting { reserved: 0, ..p[i] });
    let got = decompressed_block_spec(c, n, 0);
    assert forall|i: int| 0 <= i < n implies got[i] == expect[i] by {
        assert(running_sum(0, dd, (i + 1) as nat) == p[i].doc_id);
        assert(block_freqs(p)[i] == p[i].frequency as u32);
        assert(decoded_freqs(c, n)[i] == p[i].frequency as u32);
        assert(got[i].doc_id == p[i].doc_id);
        assert(got[i].frequency == p[i].frequency);
        assert(got[i].fieldnorm == p[i].fieldnorm);
    }
    assert(got =~= expect);
}

/// The size that `compressed_block_size` reads from a compressed block's header is
/// the number of bytes that compression wrote.
pub proof fn lemma_block_size_roundtrip(p: Seq<TpBlockPosting>)
    ensures
        p.len() > 0 ==> compressed_block_spec(p).len() >= TP_COMPRESSED_HEADER_SIZE,
        block_size_spec(p.len(), compressed_block_spec(p)[0] as nat, compressed_block_spec(p)[1] as nat)
            == compressed_block_spec(p).len(),
{
    lemma_block_bit_widths(p);
}

/// A compressed block decodes the same whatever bytes follow it.
pub proof fn lemma_decompress_extend(c: Seq<u8>, rest: Seq<u8>, count: nat, first_doc_id: u32)
    requires
        decompress_ok(c, count, first_doc_id),
    ensures
        decompress_ok(c + rest, count, first_doc_id),
        decompressed_block_spec(c + rest, count, first_doc_id) == decompressed_block_spec(c, count, first_doc_id),
{
    if count > 0 {
        let cr = c + rest;
        let b0 = c[0] as nat;
        let b1 = c[1] as nat;
        assert(cr[0] == c[0]);
        assert(cr[1] == c[1]);
        let fs = freqs_start(c, count);
        let ns = norms_start(c, count);
        assert(8 * packed_len(count, b0) >= count * b0) by (nonlinear_arith)
            requires packed_len(count, b0) == (count * b0 + 7) / 8;
        assert(8 * packed_len(count, b1) >= count * b1) by (nonlinear_arith)
            requires packed_len(count, b1) == (count * b1 + 7) / 8;
        assert forall|i: int| 0 <= i < count implies #[trigger] decoded_deltas(cr, count)[i] == decoded_deltas(c, count)[i] by {
            let a = c.skip(TP_COMPRESSED_HEADER_SIZE as int);
            assert(cr.skip(TP_COMPRESSED_HEADER_SIZE as int) =~= a + rest);
            assert(b0 * (i as nat) + b0 <= count * b0) by (nonlinear_arith)
                requires 0 <= i < count;
            lemma_unpacked_prefix(a, rest, b0, i as nat);
        }
        assert(decoded_deltas(cr, count) =~= decoded_deltas(c, count));
        assert forall|i: int| 0 <= i < count implies #[trigger] decoded_freqs(cr, count)[i] == decoded_freqs(c, count)[i] by {
            let a = c.skip(fs as int);
            assert(cr.skip(fs as int) =~= a + rest);
            assert(b1 * (i as nat) + b1 <= count * b1) by (nonlinear_arith)
                requires 0 <= i < count;
            lemma_unpacked_prefix(a, rest, b1, i as nat);
        }
        assert(decoded_freqs(cr, count) =~= decoded_freqs(c, count));
        assert forall|i: int| 0 <= i < count implies cr[ns + i] == #[trigger] c[ns + i] by {}
        assert(decompressed_block_spec(cr, count, first_doc_id) =~= decompressed_block_spec(c, count, first_doc_id));
    }
}

} // verus!
