//! Extracting raw signal values from CAN frame payloads.
use vstd::arithmetic::div_mod::*;
use vstd::arithmetic::power2::*;
use vstd::bits::*;
use vstd::prelude::*;

verus! {

/// Byte order for CAN signal extraction.
#[derive(Debug, Clone, Copy, PartialEq, Eq, Structural)]
pub enum ByteOrder {
    /// Little-endian (Intel) byte order
    LittleEndian,
    /// Big-endian (Motorola) byte order
    BigEndian,
}

/// A CAN frame with the time it was received.
#[derive(Debug, Clone)]
pub struct TimestampedFrame<F> {
    /// Timestamp in microseconds since start of logging
    pub timestamp_us: u64,
    /// The CAN frame
    pub frame: F,
}

impl<F> TimestampedFrame<F> {
    /// Pairs `frame` with `timestamp_us`.
    pub fn new(timestamp_us: u64, frame: F) -> (r: Self)
        ensures
            r.timestamp_us == timestamp_us,
            r.frame == frame,
    {
        TimestampedFrame { timestamp_us, frame }
    }
}

/// Byte `i` of `data`, or zero past its end.
pub open spec fn byte_or_zero(data: Seq<u8>, i: int) -> nat {
    if 0 <= i < data.len() {
        data[i] as nat
    } else {
        0
    }
}

/// The number whose little-endian bytes are the `n` bytes of `data` from
/// `start` on (zero past the end of `data`).
pub open spec fn le_bytes_value(data: Seq<u8>, start: int, n: nat) -> nat
    decreases n,
{
    if n == 0 {
        0
    } else {
        le_bytes_value(data, start, (n - 1) as nat) + byte_or_zero(data, start + n - 1) * pow2(
            (8 * (n - 1)) as nat,
        )
    }
}

/// An Intel signal of `bit_length` bits from bit `start_bit` on (bit `k`
/// is bit `k % 8` of byte `k / 8`). Only the eight bytes from the start
/// byte on are read: bits beyond them, and beyond the payload, read as
/// zero.
pub open spec fn spec_extract_le(data: Seq<u8>, start_bit: u16, bit_length: u16) -> u64 {
    let start_byte = start_bit / 8;
    let bit_offset = start_bit % 8;
    let needed = (bit_offset + bit_length + 7) / 8;
    let n = if needed < 8 {
        needed
    } else {
        8
    };
    ((le_bytes_value(data, start_byte as int, n as nat) / pow2(bit_offset as nat)) % pow2(
        bit_length as nat,
    )) as u64
}

/// Bit `k` of the Motorola bit stream that starts at bit `start_in_byte`
/// of byte `start_byte`: the stream runs from each byte's most significant
/// bit down to its least significant one, then on to the next byte.
pub open spec fn motorola_bit(data: Seq<u8>, start_byte: int, start_in_byte: int, k: int) -> nat {
    let idx = (7 - start_in_byte) + k;
    let b = start_byte + idx / 8;
    if 0 <= b < data.len() {
        (data[b] as nat / pow2((7 - idx % 8) as nat)) % 2
    } else {
        0
    }
}

/// The number formed by the first `n` bits of the Motorola bit stream,
/// the first bit being the most significant.
pub open spec fn motorola_value(data: Seq<u8>, start_byte: int, start_in_byte: int, n: nat) -> nat
    decreases n,
{
    if n == 0 {
        0
    } else {
        2 * motorola_value(data, start_byte, start_in_byte, (n - 1) as nat) + motorola_bit(
            data,
            start_byte,
            start_in_byte,
            n - 1,
        )
    }
}

/// The number of stream bits within the payload.
pub open spec fn motorola_available(len: int, start_byte: int, start_in_byte: int) -> int {
    if start_byte < len {
        start_in_byte + 1 + 8 * (len - start_byte - 1)
    } else {
        0
    }
}

/// A Motorola signal of `bit_length` bits whose most significant bit is
/// bit `start_bit % 8` of byte `start_bit / 8`; a signal running past the
/// payload keeps only the bits within it.
pub open spec fn spec_extract_be(data: Seq<u8>, start_bit: u16, bit_length: u16) -> u64 {
    let start_byte = (start_bit / 8) as int;
    let start_in_byte = (start_bit % 8) as int;
    let avail = motorola_available(data.len() as int, start_byte, start_in_byte);
    let n = if bit_length < avail {
        bit_length as int
    } else {
        avail
    };
    motorola_value(data, start_byte, start_in_byte, n as nat) as u64
}

/// The raw value of a signal: zero for an empty payload or a length
/// outside 1 to 64 bits.
pub open spec fn spec_extract_signal_raw(data: Seq<u8>, start_bit: u16, bit_length: u16, byte_order: ByteOrder) -> u64 {
    if data.len() == 0 || bit_length == 0 || bit_length > 64 {
        0
    } else {
        match byte_order {
            ByteOrder::LittleEndian => spec_extract_le(data, start_bit, bit_length),
            ByteOrder::BigEndian => spec_extract_be(data, start_bit, bit_length),
        }
    }
}

/// Extracts the raw value of a signal from CAN frame data.
pub fn extract_signal_raw(data: &[u8], start_bit: u16, bit_length: u16, byte_order: ByteOrder) -> (r: u64)
    ensures
        r == spec_extract_signal_raw(data@, start_bit, bit_length, byte_order),
{
    if data.len() == 0 || bit_length == 0 || bit_length > 64 {
        return 0;
    }
    match byte_order {
        ByteOrder::LittleEndian => extract_le(data, start_bit, bit_length),
        ByteOrder::BigEndian => extract_be(data, start_bit, bit_length),
    }
}

/// The little-endian value of up to eight bytes fits in their bits.
proof fn lemma_le_bytes_bound(data: Seq<u8>, start: int, n: nat)
    requires
        n <= 8,
    ensures
        le_bytes_value(data, start, n) < pow2((8 * n) as nat),
    decreases n,
{
    if n > 0 {
        lemma_le_bytes_bound(data, start, (n - 1) as nat);
        let p = pow2((8 * (n - 1)) as nat);
        lemma_pow2_adds((8 * (n - 1)) as nat, 8);
        lemma2_to64();
        assert(byte_or_zero(data, start + n - 1) <= 255);
        assert(le_bytes_value(data, start, n) <= le_bytes_value(data, start, (n - 1) as nat) + 255 * p) by (nonlinear_arith)
            requires
                le_bytes_value(data, start, n) == le_bytes_value(data, start, (n - 1) as nat) + byte_or_zero(data, start + n - 1) * p,
                byte_or_zero(data, start + n - 1) <= 255,
        ;
        assert(pow2((8 * n) as nat) == p * 256);
        assert(le_bytes_value(data, start, (n - 1) as nat) < p);
        assert(le_bytes_value(data, start, n) < p * 256);
    } else {
        lemma2_to64();
    }
}

/// Extracts an Intel signal.
fn extract_le(data: &[u8], start_bit: u16, bit_length: u16) -> (r: u64)
    requires
        0 < bit_length <= 64,
    ensures
        r == spec_extract_le(data@, start_bit, bit_length),
{
    let start_byte = (start_bit / 8) as usize;
    let bit_offset = start_bit % 8;
    let mut value: u64 = 0;
    let bytes_needed = ((bit_offset as usize + bit_length as usize) + 7) / 8;
    let n: usize = if bytes_needed < 8 {
        bytes_needed
    } else {
        8
    };
    let mut i: usize = 0;
    while i < n
        invariant
            n <= 8,
            i <= n,
            value == le_bytes_value(data@, start_byte as int, i as nat),
            start_byte == start_bit / 8,
        decreases n - i,
    {
        proof {
            lemma_le_bytes_bound(data@, start_byte as int, i as nat);
            lemma_pow2_adds((8 * i) as nat, 8);
            lemma2_to64();
            lemma2_to64_rest();
        }
        let ghost old_value = value;
        let b: u64 = if start_byte + i < data.len() {
            data[start_byte + i] as u64
        } else {
            0
        };
        let s: u64 = (i * 8) as u64;
        proof {
            assert(b <= 255);
            assert(pow2(s as nat) * 256 <= 0x1_0000_0000_0000_0000);
            assert(b * pow2(s as nat) <= u64::MAX) by (nonlinear_arith)
                requires
                    b <= 255,
                    pow2(s as nat) * 256 <= 0x1_0000_0000_0000_0000,
            ;
            lemma_u64_shl_is_mul(b, s);
            lemma_u64_pow2_no_overflow(s as nat);
            lemma_u64_shl_is_mul(1, s);
            assert(value < (1u64 << s));
            assert(value | (b << s) == value + (b << s)) by (bit_vector)
                requires
                    s < 64,
                    value < (1u64 << s),
            ;
        }
        value = value | (b << s);
        i = i + 1;
    }
    proof {
        lemma_le_bytes_bound(data@, start_byte as int, n as nat);
        lemma_u64_shr_is_div(value, bit_offset as u64);
    }
    value = value >> (bit_offset as u64);
    if bit_length == 64 {
        proof {
            lemma2_to64_rest();
            assert(pow2(64) == 0x10000000000000000);
            assert(value < 0x10000000000000000);
            vstd::arithmetic::div_mod::lemma_small_mod(value as nat, pow2(64));
            assert(value as nat % pow2(64) == value as nat);
        }
        return value;
    }
    proof {
        lemma_u64_pow2_no_overflow(bit_length as nat);
        lemma_u64_shl_is_mul(1, bit_length as u64);
        lemma_u64_low_bits_mask_is_mod(value, bit_length as nat);
    }
    let mask: u64 = (1u64 << (bit_length as u64)) - 1;
    proof {
        assert(mask == low_bits_mask(bit_length as nat) as u64);
    }
    value & mask
}

/// Taking the bits of byte `x` from bit `cur` down, `k` of them, appends
/// them to the Motorola value: the stream continues in byte `cbyte` at bit
/// `cur` after `t` bits.
#[verifier::spinoff_prover]
proof fn lemma_motorola_chunk(data: Seq<u8>, sb: int, cb: int, t: nat, cbyte: int, cur: int, k: nat)
    requires
        0 <= cb <= 7,
        0 <= cur <= 7,
        k <= cur + 1,
        0 <= cbyte < data.len(),
        8 * (cbyte - sb) + (7 - cur) == t + (7 - cb),
    ensures
        motorola_value(data, sb, cb, t + k) == motorola_value(data, sb, cb, t) * pow2(k) + (
        data[cbyte] as nat / pow2((cur + 1 - k) as nat)) % pow2(k),
    decreases k,
{
    let x = data[cbyte] as nat;
    if k == 0 {
        lemma2_to64();
    } else {
        let k1 = (k - 1) as nat;
        lemma_motorola_chunk(data, sb, cb, t, cbyte, cur, k1);
        let idx = (7 - cb) + t + k1;
        assert(idx == 8 * (cbyte - sb) + (7 - cur + k1));
        assert(idx / 8 == cbyte - sb && idx % 8 == 7 - cur + k1) by {
            lemma_fundamental_div_mod_converse(idx, 8, cbyte - sb, 7 - cur + k1);
        }
        assert(motorola_bit(data, sb, cb, (t + k1) as int) == (x / pow2((cur - k1) as nat)) % 2);
        let y = x / pow2((cur - k1) as nat);
        lemma_pow2_pos((cur - k1) as nat);
        lemma_pow2_adds((cur - k1) as nat, 1);
        lemma2_to64();
        lemma_div_denominator(x as int, pow2((cur - k1) as nat) as int, 2);
        assert(x / pow2((cur + 1 - k1) as nat) == y / 2);
        lemma_pow2_pos(k1);
        lemma_mod_breakdown(y as int, 2, pow2(k1) as int);
        lemma_pow2_adds(k1, 1);
        assert(pow2(k) == 2 * pow2(k1));
        assert(y % pow2(k) == 2 * ((y / 2) % pow2(k1)) + y % 2);
        let m = motorola_value(data, sb, cb, t);
        assert(motorola_value(data, sb, cb, t + k) == 2 * motorola_value(data, sb, cb, t + k1) + y % 2);
        assert(m * pow2(k) == 2 * (m * pow2(k1))) by (nonlinear_arith)
            requires
                pow2(k) == 2 * pow2(k1),
        ;
        assert((cur + 1 - k) == (cur - k1));
        assert(((cur + 1 - k) as nat) == ((cur - k1) as nat));
        assert(x / pow2((cur + 1 - k) as nat) == y);
        assert(motorola_value(data, sb, cb, t + k1) == m * pow2(k1) + (y / 2) % pow2(k1));
        assert(motorola_value(data, sb, cb, t + k) == 2 * (m * pow2(k1) + (y / 2) % pow2(k1)) + y % 2);
        assert(motorola_value(data, sb, cb, t + k) == m * pow2(k) + y % pow2(k));
    }
}

/// A Motorola value of `n` bits fits in `n` bits.
proof fn lemma_motorola_bound(data: Seq<u8>, sb: int, cb: int, n: nat)
    ensures
        motorola_value(data, sb, cb, n) < pow2(n),
    decreases n,
{
    if n == 0 {
        lemma2_to64();
    } else {
        lemma_motorola_bound(data, sb, cb, (n - 1) as nat);
        lemma_pow2_adds((n - 1) as nat, 1);
        lemma2_to64();
    }
}

/// Extracts a Motorola signal.
fn extract_be(data: &[u8], start_bit: u16, bit_length: u16) -> (r: u64)
    requires
        0 < bit_length <= 64,
    ensures
        r == spec_extract_be(data@, start_bit, bit_length),
{
    let start_byte = (start_bit / 8) as usize;
    let bit_in_byte = start_bit % 8;
    let ghost sb = start_byte as int;
    let ghost cb = bit_in_byte as int;
    let mut value: u64 = 0;
    let mut bits_remaining: u16 = bit_length;
    let mut current_byte: usize = start_byte;
    let mut current_bit: u16 = bit_in_byte;
    while bits_remaining > 0 && current_byte < data.len()
        invariant
            sb == start_bit / 8,
            cb == start_bit % 8,
            bits_remaining <= bit_length <= 64,
            current_bit <= 7,
            current_byte >= sb,
            current_bit == 7 || (current_byte == sb && current_bit == cb),
            current_byte > sb ==> current_byte <= data@.len(),
            bits_remaining > 0 ==> 8 * (current_byte - sb) + (7 - current_bit) == (bit_length
                - bits_remaining) + (7 - cb),
            bit_length - bits_remaining <= motorola_available(data@.len() as int, sb, cb),
            value == motorola_value(data@, sb, cb, (bit_length - bits_remaining) as nat),
        decreases bits_remaining,
    {
        let ghost t = (bit_length - bits_remaining) as nat;
        let bits_available: u16 = current_bit + 1;
        let take: u16 = if bits_available < bits_remaining {
            bits_available
        } else {
            bits_remaining
        };
        let shift: u16 = current_bit + 1 - take;
        proof {
            lemma_u64_pow2_no_overflow(take as nat);
            lemma_u64_shl_is_mul(1, take as u64);
            lemma2_to64();
        }
        let mask64: u64 = (1u64 << (take as u64)) - 1;
        let mask: u8 = mask64 as u8;
        let x: u8 = data[current_byte];
        let byte_value: u8 = (x >> (shift as u8)) & mask;
        proof {
            lemma_u8_shr_is_div(x, shift as u8);
            lemma_pow2_pos(shift as nat);
            let q = (x >> (shift as u8));
            assert(q == x as nat / pow2(shift as nat));
            if take < 8 {
                lemma_u8_pow2_no_overflow(take as nat);
                assert(mask64 == pow2(take as nat) - 1);
                assert(mask == low_bits_mask(take as nat) as u8);
                lemma_u8_low_bits_mask_is_mod(q, take as nat);
                assert(byte_value == q % (pow2(take as nat) as u8));
            } else {
                assert(mask == 255);
                assert(q & 255 == q) by (bit_vector);
                assert(shift == 0);
                assert(q == x);
                lemma_small_mod(x as nat, 256);
            }
            assert(byte_value == (x as nat / pow2(shift as nat)) % pow2(take as nat));
            lemma_motorola_chunk(data@, sb, cb, t, current_byte as int, current_bit as int, take as nat);
            lemma_motorola_bound(data@, sb, cb, t);
            lemma_motorola_bound(data@, sb, cb, t + take as nat);
            lemma_pow2_adds(t, take as nat);
            lemma_pow2_pos(take as nat);
            assert(t + take <= 64);
            assert(value * pow2(take as nat) < pow2(t + take as nat)) by (nonlinear_arith)
                requires
                    value < pow2(t),
                    pow2(t + take as nat) == pow2(t) * pow2(take as nat),
                    pow2(take as nat) > 0,
            ;
            assert(value * pow2(take as nat) <= u64::MAX) by {
                if t + take < 64 {
                    lemma_pow2_strictly_increases(t + take as nat, 64);
                }
            }
            lemma_u64_shl_is_mul(value, take as u64);
            let v2 = value << (take as u64);
            let bv = byte_value as u64;
            assert(bv < (1u64 << (take as u64)));
            assert(v2 == value * pow2(take as nat));
            assert((v2 | bv) == v2 + bv) by {
                let tk = take as u64;
                assert(((value << tk) | bv) == (value << tk) + bv) by (bit_vector)
                    requires
                        tk <= 8,
                        bv < (1u64 << tk),
                ;
            }
        }
        value = (value << (take as u64)) | (byte_value as u64);
        bits_remaining = bits_remaining - take;
        current_byte = current_byte + 1;
        current_bit = 7;
    }
    proof {
        let t = bit_length - bits_remaining;
        let avail = motorola_available(data@.len() as int, sb, cb);
        if bits_remaining > 0 {
            if current_byte > sb {
                assert(current_byte == data@.len());
                assert(t == avail);
            } else {
                assert(t == 0);
                assert(avail == 0);
            }
        } else {
            assert(t <= avail);
        }
    }
    value
}

/// Sign-extends the `bit_length`-bit value `value`: when bit
/// `bit_length - 1` is set, every higher bit is set too.
pub open spec fn spec_sign_extend(value: u64, bit_length: u16) -> i64 {
    if (value as nat / pow2((bit_length - 1) as nat)) % 2 == 1 {
        ((value as nat % pow2(bit_length as nat)) - pow2(bit_length as nat)) as i64
    } else {
        #[verifier::truncate] (value as i64)
    }
}

/// Reads `value` as a signed number of `bit_length` bits.
pub fn sign_extend(value: u64, bit_length: u16) -> (r: i64)
    requires
        1 <= bit_length <= 64,
    ensures
        r == spec_sign_extend(value, bit_length),
{
    if bit_length == 64 && value >= 0x8000_0000_0000_0000 {
        proof {
            lemma2_to64_rest();
            assert(pow2(63) == 0x8000_0000_0000_0000);
            assert(pow2(64) == 0x10000000000000000);
            vstd::arithmetic::div_mod::lemma_small_mod(value as nat, pow2(64));
            assert(value as nat / pow2(63) == 1) by {
                vstd::arithmetic::div_mod::lemma_fundamental_div_mod_converse(
                    value as int,
                    pow2(63) as int,
                    1,
                    value - 0x8000_0000_0000_0000,
                );
            }
        }
        let low: u64 = value - 0x8000_0000_0000_0000;
        return (low as i64) - 0x7FFF_FFFF_FFFF_FFFF - 1;
    }
    proof {
        lemma_u64_pow2_no_overflow((bit_length - 1) as nat);
        lemma_u64_shl_is_mul(1, (bit_length - 1) as u64);
        lemma_u64_shr_is_div(value, (bit_length - 1) as u64);
        assert((value & (1u64 << ((bit_length - 1) as u64)) != 0) == ((value >> ((bit_length - 1) as u64)) % 2 == 1)) by (bit_vector)
            requires
                bit_length - 1 < 64,
        ;
    }
    let sign_bit = 1u64 << ((bit_length - 1) as u64);
    if value & sign_bit != 0 {
        proof {
            if bit_length == 64 {
                assert(value < 0x8000_0000_0000_0000 ==> value & (1u64 << 63u64) == 0) by (bit_vector);
            }
            lemma_u64_pow2_no_overflow(bit_length as nat);
            lemma_u64_shl_is_mul(1, bit_length as u64);
            lemma2_to64();
        }
        let lm: u64 = (1u64 << (bit_length as u64)) - 1;
        let low: u64 = value & lm;
        proof {
            assert(lm == low_bits_mask(bit_length as nat) as u64);
            lemma_u64_low_bits_mask_is_mod(value, bit_length as nat);
            assert(bit_length <= 63);
            lemma2_to64_rest();
            if bit_length < 63 {
                lemma_pow2_strictly_increases(bit_length as nat, 63);
            }
            assert(pow2(bit_length as nat) <= 0x8000_0000_0000_0000);
            assert(lm < 0x8000_0000_0000_0000);
            assert(value & lm <= lm) by (bit_vector);
        }
        (low as i64) - (lm as i64) - 1
    } else {
        #[verifier::truncate] (value as i64)
    }
}

/// The distinct values of `ids` in ascending order.
pub fn sorted_unique_ids(ids: &[u32]) -> (r: Vec<u32>)
    ensures
        forall|i: int, j: int| 0 <= i < j < r@.len() ==> r@[i] < r@[j],
        forall|x: u32| #[trigger] r@.contains(x) <==> ids@.contains(x),
{
    let mut out: Vec<u32> = Vec::new();
    let mut k: usize = 0;
    while k < ids.len()
        invariant
            k <= ids@.len(),
            forall|i: int, j: int| 0 <= i < j < out@.len() ==> out@[i] < out@[j],
            forall|x: u32| #[trigger] out@.contains(x) <==> ids@.subrange(0, k as int).contains(x),
        decreases ids@.len() - k,
    {
        let id = ids[k];
        let ghost before = out@;
        let mut i: usize = 0;
        while i < out.len() && out[i] < id
            invariant
                i <= out@.len(),
                out@ == before,
                forall|j: int| 0 <= j < i ==> out@[j] < id,
            decreases out@.len() - i,
        {
            i = i + 1;
        }
        if !(i < out.len() && out[i] == id) {
            proof {
                assert forall|j: int| i <= j < before.len() implies before[j] > id by {
                    if j > i {
                        assert(before[i as int] < before[j]);
                    }
                }
            }
            out.insert(i, id);
            proof {
                assert(out@ == before.insert(i as int, id));
                assert forall|a: int, b: int| 0 <= a < b < out@.len() implies out@[a] < out@[b] by {
                    if b < i {
                    } else if a < i && b == i {
                    } else if a < i {
                        assert(out@[b] == before[b - 1]);
                    } else if a == i {
                        assert(out@[b] == before[b - 1]);
                    } else {
                        assert(out@[a] == before[a - 1]);
                        assert(out@[b] == before[b - 1]);
                    }
                }
            }
        }
        proof {
            let p = ids@.subrange(0, k + 1);
            assert(p =~= ids@.subrange(0, k as int).push(id));
            assert forall|x: u32| #[trigger] out@.contains(x) <==> p.contains(x) by {
                if out@.contains(x) {
                    let a = choose|a: int| 0 <= a < out@.len() && out@[a] == x;
                    if x != id {
                        if out@ != before {
                            if a < i {
                                assert(before[a] == x);
                            } else if a > i {
                                assert(before[a - 1] == x);
                            }
                        }
                        assert(before.contains(x));
                        assert(ids@.subrange(0, k as int).contains(x));
                        let b = choose|b: int| 0 <= b < k && ids@.subrange(0, k as int)[b] == x;
                        assert(p[b] == x);
                    } else {
                        assert(p[k as int] == x);
                    }
                }
                if p.contains(x) {
                    let b = choose|b: int| 0 <= b < p.len() && p[b] == x;
                    if b < k {
                        assert(ids@.subrange(0, k as int)[b] == x);
                        assert(ids@.subrange(0, k as int).contains(x));
                        assert(before.contains(x));
                        let a = choose|a: int| 0 <= a < before.len() && before[a] == x;
                        if out@ != before {
                            if a < i {
                                assert(out@[a] == x);
                            } else {
                                assert(out@[a + 1] == x);
                            }
                        }
                    } else {
                        assert(x == id);
                        if out@ == before {
                            assert(out@[i as int] == id);
                        } else {
                            assert(out@[i as int] == id);
                        }
                    }
                }
            }
        }
        k = k + 1;
    }
    proof {
        assert(ids@.subrange(0, k as int) =~= ids@);
    }
    out
}

} // verus!
