//! The record a raw CAN frame is stored as: its values, the channel layout
//! of a raw frame group, and the bytes the values encode to.
use super::fd::FdFlags;
use crate::blocks::DataType;
use crate::writer::data::{encode_record, field_byte, field_width, layout_end, place_value, word_byte, DecodedValue};
use crate::writer::ChannelLayout;
use vstd::bytes::*;
use vstd::prelude::*;

verus! {

/// The values of the record of frame `f` under `can_id`: timestamp, CAN
/// ID, DLC, the FD flags byte, then `n` data bytes (zero past the payload).
pub open spec fn raw_record_values(f: (u64, u8, Seq<u8>, FdFlags), can_id: u32, n: nat) -> Seq<DecodedValue> {
    seq![
        DecodedValue::UnsignedInteger(f.0),
        DecodedValue::UnsignedInteger(can_id as u64),
        DecodedValue::UnsignedInteger(f.1 as u64),
        DecodedValue::UnsignedInteger(f.3.spec_byte() as u64),
    ] + Seq::new(n, |i: int| DecodedValue::UnsignedInteger(payload_byte(f.2, i) as u64))
}

/// Byte `i` of a payload, zero past its end.
pub open spec fn payload_byte(data: Seq<u8>, i: int) -> u8 {
    if 0 <= i < data.len() {
        data[i]
    } else {
        0
    }
}

/// An unsigned little-endian channel of `bits` bits at `byte_offset`.
pub open spec fn raw_entry(byte_offset: u32, bits: u32) -> ChannelLayout {
    ChannelLayout { data_type: DataType::UnsignedIntegerLE, byte_offset, bit_offset: 0, bit_count: bits }
}

/// The record layout of a raw frame group with `n` data byte channels:
/// timestamp (8 bytes), CAN ID (4 bytes), DLC, FD flags, then the data
/// bytes.
pub open spec fn raw_layout(n: nat) -> Seq<ChannelLayout> {
    seq![raw_entry(0, 64), raw_entry(8, 32), raw_entry(12, 8), raw_entry(13, 8)] + Seq::new(
        n,
        |i: int| raw_entry((14 + i) as u32, 8),
    )
}

/// The `n` least significant bytes of `x`, least significant first.
pub open spec fn le_bytes(x: u64, n: nat) -> Seq<u8> {
    Seq::new(n, |i: int| word_byte(x, i))
}

/// The bytes of the record of frame `f` under `can_id` with `n` data
/// bytes: the timestamp as eight little-endian bytes, the CAN ID as four,
/// the DLC, the FD flags byte, then the payload cut or padded with zeros
/// to `n` bytes.
pub open spec fn raw_record_bytes(f: (u64, u8, Seq<u8>, FdFlags), can_id: u32, n: nat) -> Seq<u8> {
    le_bytes(f.0, 8) + le_bytes(can_id as u64, 4) + seq![f.1, f.3.spec_byte()] + Seq::new(
        n,
        |i: int| payload_byte(f.2, i),
    )
}

/// The end of the first `k` channels of a raw layout.
spec fn raw_end(k: int) -> int {
    if k == 0 {
        0
    } else if k == 1 {
        8
    } else if k == 2 {
        12
    } else if k == 3 {
        13
    } else {
        10 + k
    }
}

/// The eight little-endian bytes of `x` are those of
/// `spec_u64_to_le_bytes`.
pub proof fn lemma_le_bytes_u64(x: u64)
    ensures
        le_bytes(x, 8) == spec_u64_to_le_bytes(x),
{
    spec_u64_to_le_bytes_to_open(x);
    assert forall|i: int| 0 <= i < 8 implies #[trigger] le_bytes(x, 8)[i] == spec_u64_to_le_bytes_open(x)[i] by {
        let w = word_byte(x, i);
        if i == 0 {
            assert(((x >> 0u64) & 0xff) as u8 == (x & 0xff) as u8) by (bit_vector);
        }
    }
    assert(le_bytes(x, 8) =~= spec_u64_to_le_bytes_open(x));
}

/// A value that fits `bits` bits, placed in an unsigned little-endian
/// channel of that many bits, gives its own bytes.
proof fn lemma_unsigned_field_byte(x: u64, bits: u32, byte_offset: u32, k: int)
    requires
        bits == 64 || bits == 32 || bits == 8,
        bits < 64 ==> x < (if bits == 32 {
            0x1_0000_0000u64
        } else {
            0x100u64
        }),
    ensures
        field_byte(raw_entry(byte_offset, bits), DecodedValue::UnsignedInteger(x), k) == word_byte(x, k),
        field_width(raw_entry(byte_offset, bits)) == bits / 8,
{
    let l = raw_entry(byte_offset, bits);
    if bits == 64 {
        assert((x & 0xffff_ffff_ffff_ffffu64) << 0u64 == x) by (bit_vector);
    } else if bits == 32 {
        assert(u64::MAX >> 32u64 == 0xffff_ffffu64) by (bit_vector);
        assert(x < 0x1_0000_0000u64 ==> (x & 0xffff_ffffu64) << 0u64 == x) by (bit_vector);
    } else {
        assert(u64::MAX >> 56u64 == 0xffu64) by (bit_vector);
        assert(x < 0x100u64 ==> (x & 0xffu64) << 0u64 == x) by (bit_vector);
    }
}

/// The low byte of a byte value is the value.
proof fn lemma_word_byte_of_byte(b: u8)
    ensures
        word_byte(b as u64, 0) == b,
{
    let x = b as u64;
    assert(x < 0x100u64 ==> ((x >> 0u64) & 0xffu64) as u8 == x as u8) by (bit_vector);
}

/// Encoding the values of a raw frame with the raw layout gives the raw
/// record bytes: each value lands, least significant byte first, in the
/// bytes of its channel.
pub proof fn lemma_raw_record_encoding(f: (u64, u8, Seq<u8>, FdFlags), can_id: u32, n: nat)
    requires
        n <= 0xffff,
    ensures
        encode_record(raw_layout(n), raw_record_values(f, can_id, n), 0, (14 + n) as nat)
            == raw_record_bytes(f, can_id, n),
{
    let l = raw_layout(n);
    let t = raw_record_bytes(f, can_id, n);
    let s = (14 + n) as nat;
    lemma_raw_prefix(f, can_id, n, 4 + n as int);
    assert(l.take(4 + n as int) =~= l);
    assert(Seq::new(s, |j: int| if j < raw_end(4 + n as int) { t[j] } else { 0u8 }) =~= t);
}

/// The first `k` channels of the raw layout encode the bytes up to their
/// end, the rest staying zero.
proof fn lemma_raw_prefix(f: (u64, u8, Seq<u8>, FdFlags), can_id: u32, n: nat, k: int)
    requires
        0 <= k <= 4 + n,
        n <= 0xffff,
    ensures
        encode_record(raw_layout(n).take(k), raw_record_values(f, can_id, n), 0, (14 + n) as nat)
            == Seq::new((14 + n) as nat, |j: int| if j < raw_end(k) { raw_record_bytes(f, can_id, n)[j] } else { 0u8 }),
    decreases k,
{
    if k == 0 {
        let t = raw_record_bytes(f, can_id, n);
        assert(raw_layout(n).take(0).len() == 0);
        assert(encode_record(raw_layout(n).take(0), raw_record_values(f, can_id, n), 0, (14 + n) as nat)
            =~= Seq::new((14 + n) as nat, |j: int| if j < raw_end(0) { t[j] } else { 0u8 }));
    } else {
        lemma_raw_prefix(f, can_id, n, k - 1);
        lemma_raw_step(f, can_id, n, k - 1);
    }
}

/// One channel more of the raw layout encodes one field more.
proof fn lemma_raw_step(f: (u64, u8, Seq<u8>, FdFlags), can_id: u32, n: nat, k: int)
    requires
        0 <= k < 4 + n,
        n <= 0xffff,
        encode_record(raw_layout(n).take(k), raw_record_values(f, can_id, n), 0, (14 + n) as nat)
            == Seq::new((14 + n) as nat, |j: int| if j < raw_end(k) { raw_record_bytes(f, can_id, n)[j] } else { 0u8 }),
    ensures
        encode_record(raw_layout(n).take(k + 1), raw_record_values(f, can_id, n), 0, (14 + n) as nat)
            == Seq::new(
            (14 + n) as nat,
            |j: int| if j < raw_end(k + 1) { raw_record_bytes(f, can_id, n)[j] } else { 0u8 },
        ),
{
    let l = raw_layout(n);
    let v = raw_record_values(f, can_id, n);
    let s = (14 + n) as nat;
    let t = raw_record_bytes(f, can_id, n);
    let lk = l.take(k + 1);
    assert(lk.drop_last() =~= l.take(k));
    assert(lk[k] == l[k]);
    let prev = encode_record(l.take(k), v, 0, s);
    let e = l[k];
    let x = v[k];
    if k >= 4 {
        assert(l[k] == raw_entry((14 + (k - 4)) as u32, 8));
    }
    assert(e.byte_offset == raw_end(k));
    let (bits, val): (u32, u64) = if k == 0 {
        (64, f.0)
    } else if k == 1 {
        (32, can_id as u64)
    } else if k == 2 {
        (8, f.1 as u64)
    } else if k == 3 {
        (8, f.3.spec_byte() as u64)
    } else {
        (8, payload_byte(f.2, k - 4) as u64)
    };
    assert(e == raw_entry(raw_end(k) as u32, bits));
    assert(x == DecodedValue::UnsignedInteger(val));
    let next = place_value(prev, e, x, 0 + e.byte_offset);
    assert forall|j: int| 0 <= j < s implies #[trigger] next[j] == (if j < raw_end(k + 1) { t[j] } else { 0u8 }) by {
        if raw_end(k) <= j < raw_end(k + 1) {
            lemma_unsigned_field_byte(val, bits, raw_end(k) as u32, j - raw_end(k));
            let b = field_byte(e, x, j - raw_end(k));
            assert(prev[j] == 0u8);
            assert((0u8 | b) == b) by (bit_vector);
            if k >= 2 {
                let by: u8 = if k == 2 {
                    f.1
                } else if k == 3 {
                    f.3.spec_byte()
                } else {
                    payload_byte(f.2, k - 4)
                };
                lemma_word_byte_of_byte(by);
            }
        } else {
            lemma_unsigned_field_byte(val, bits, raw_end(k) as u32, 0);
        }
    }
    assert(next =~= Seq::new(s, |j: int| if j < raw_end(k + 1) { t[j] } else { 0u8 }));
}

/// The records of `frames`, one after the other.
pub open spec fn raw_records(frames: Seq<(u64, u8, Seq<u8>, FdFlags)>, can_id: u32, n: nat) -> Seq<u8>
    decreases frames.len(),
{
    if frames.len() == 0 {
        Seq::empty()
    } else {
        raw_records(frames.drop_last(), can_id, n) + raw_record_bytes(frames.last(), can_id, n)
    }
}

/// The records of `k` frames take `k` times the record size.
pub proof fn lemma_raw_records_len(frames: Seq<(u64, u8, Seq<u8>, FdFlags)>, can_id: u32, n: nat)
    ensures
        raw_records(frames, can_id, n).len() == frames.len() * (14 + n),
    decreases frames.len(),
{
    if frames.len() > 0 {
        lemma_raw_records_len(frames.drop_last(), can_id, n);
        assert(frames.len() * (14 + n) == (frames.len() - 1) * (14 + n) + (14 + n)) by (nonlinear_arith);
    }
}

/// The channels of a raw layout end after the last data byte.
pub proof fn lemma_raw_layout_end(n: nat)
    requires
        n <= 0xffff,
    ensures
        layout_end(raw_layout(n)) == 14 + n,
    decreases n,
{
    let l = raw_layout(n);
    if n == 0 {
        let l3 = l.drop_last();
        let l2 = l3.drop_last();
        let l1 = l2.drop_last();
        assert(l1 =~= seq![raw_entry(0, 64)]);
        assert(l2 =~= seq![raw_entry(0, 64), raw_entry(8, 32)]);
        assert(l3 =~= seq![raw_entry(0, 64), raw_entry(8, 32), raw_entry(12, 8)]);
        assert(l1.drop_last().len() == 0);
        assert(layout_end(l1.drop_last()) == 0);
        assert(l1.last() == raw_entry(0, 64));
        assert(field_width(raw_entry(0, 64)) == 8);
        assert(field_width(raw_entry(8, 32)) == 4);
        assert(field_width(raw_entry(12, 8)) == 1);
        assert(field_width(raw_entry(13, 8)) == 1);
        assert(layout_end(l1) == 8);
        assert(l2.drop_last() =~= l1);
        assert(layout_end(l2) == 12);
        assert(l3.drop_last() =~= l2);
        assert(layout_end(l3) == 13);
        assert(l.last() == raw_entry(13, 8));
    } else {
        lemma_raw_layout_end((n - 1) as nat);
        assert(l.drop_last() =~= raw_layout((n - 1) as nat));
        assert(l.last() == raw_entry((14 + (n - 1)) as u32, 8));
    }
}

/// A record only reads the values its layout has channels for.
pub proof fn lemma_encode_values_prefix(
    layout: Seq<ChannelLayout>,
    v1: Seq<DecodedValue>,
    v2: Seq<DecodedValue>,
    rid: int,
    size: nat,
)
    requires
        layout.len() <= v1.len(),
        layout.len() <= v2.len(),
        forall|i: int| 0 <= i < layout.len() ==> v1[i] == v2[i],
    ensures
        encode_record(layout, v1, rid, size) == encode_record(layout, v2, rid, size),
    decreases layout.len(),
{
    if layout.len() > 0 {
        lemma_encode_values_prefix(layout.drop_last(), v1, v2, rid, size);
        assert(v1[layout.len() - 1] == v2[layout.len() - 1]);
    }
}

/// The values of a frame's record with `n` data bytes begin with those
/// with fewer.
pub proof fn lemma_raw_values_prefix(f: (u64, u8, Seq<u8>, FdFlags), can_id: u32, n0: nat, n: nat)
    requires
        n0 <= n,
    ensures
        raw_record_values(f, can_id, n).len() == 4 + n,
        raw_record_values(f, can_id, n0).len() == 4 + n0,
        forall|i: int| 0 <= i < 4 + n0 ==> #[trigger] raw_record_values(f, can_id, n)[i] == raw_record_values(f, can_id, n0)[i],
{
}

/// Whether the image `b` holds the records of `frames`, one after the
/// other, somewhere at or after `from`.
pub open spec fn holds_records(b: Seq<u8>, from: int, frames: Seq<(u64, u8, Seq<u8>, FdFlags)>, can_id: u32, n: nat) -> bool {
    exists|p: int|
        0 <= p && from <= p && p + frames.len() * (14 + n) <= b.len() && #[trigger] b.subrange(p, p + frames.len() * (14 + n))
            == raw_records(frames, can_id, n)
}

/// Records held in a part of the image that a later image keeps are held
/// there too.
pub proof fn lemma_holds_records_kept(
    b: Seq<u8>,
    b2: Seq<u8>,
    from: int,
    frames: Seq<(u64, u8, Seq<u8>, FdFlags)>,
    can_id: u32,
    n: nat,
)
    requires
        holds_records(b, from, frames, can_id, n),
        b2.len() >= b.len(),
        forall|j: int| from <= j < b.len() ==> #[trigger] b2[j] == b[j],
    ensures
        holds_records(b2, from, frames, can_id, n),
{
    let len = frames.len() * (14 + n);
    let p = choose|p: int|
        0 <= p && from <= p && p + frames.len() * (14 + n) <= b.len() && #[trigger] b.subrange(p, p + frames.len() * (14 + n))
            == raw_records(frames, can_id, n);
    assert(from <= p && p + len <= b.len());
    assert(len >= 0) by (nonlinear_arith)
        requires
            len == frames.len() * (14 + n),
    ;
    assert forall|j: int| 0 <= j < len implies #[trigger] b2.subrange(p, p + len)[j] == b.subrange(p, p + len)[j] by {
        assert(b2[p + j] == b[p + j]);
    }
    assert(b2.subrange(p, p + len) =~= b.subrange(p, p + len));
}

/// Records held at or after `from` are held at or after any earlier
/// point.
pub proof fn lemma_holds_records_from(b: Seq<u8>, from: int, to: int, frames: Seq<(u64, u8, Seq<u8>, FdFlags)>, can_id: u32, n: nat)
    requires
        holds_records(b, from, frames, can_id, n),
        to <= from,
    ensures
        holds_records(b, to, frames, can_id, n),
{
    let p = choose|p: int|
        0 <= p && from <= p && p + frames.len() * (14 + n) <= b.len() && #[trigger] b.subrange(p, p + frames.len() * (14 + n))
            == raw_records(frames, can_id, n);
    assert(b.subrange(p, p + frames.len() * (14 + n)) == raw_records(frames, can_id, n));
}

} // verus!
