//! Reading raw CAN frames back from the channel groups that hold them:
//! the values of a channel in the records of a data block, frames
//! assembled from the channels' values, and frames ordered by timestamp.
use super::fd::dlc_to_len;
use super::fd::spec_dlc_to_len;
use super::overlay::RawCanGroup;
use super::signal::{extract_signal_raw, sign_extend, spec_extract_signal_raw, spec_sign_extend, ByteOrder};
use crate::blocks::common::read_u64_at;
use crate::blocks::DataType;
use crate::error::{Error, Result};
use crate::text::concat_str;
use crate::index::{ByteRangeReader, DataBlockInfo, MdfIndex};
use super::raw_record::{holds_records, le_bytes, lemma_le_bytes_u64, lemma_raw_records_len, payload_byte, raw_record_bytes, raw_records};
use super::fd::FdFlags;
use super::signal::{byte_or_zero, le_bytes_value};
use crate::writer::data::word_byte;
use vstd::arithmetic::power2::{lemma2_to64, pow2};
use vstd::bytes::{lemma_auto_spec_u64_to_from_le_bytes, spec_u64_from_le_bytes, spec_u64_to_le_bytes};
use vstd::prelude::*;
use vstd::slice::{slice_subrange, slice_to_vec};

verus! {

/// The value of a little-endian integer channel in `record`: the field
/// starts `start` bytes in (or at the end of a shorter record), at bit
/// `bit_offset`, and spans `bits` bits. A 64-bit field takes eight whole
/// bytes; a signed field of fewer bits is sign-extended. Channels of any
/// other data type, fields of no bits and fields with no bytes give no
/// value.
pub open spec fn field_value(record: Seq<u8>, start: int, bit_offset: u8, bits: u32, data_type: DataType) -> Option<u64> {
    let s = if start < record.len() {
        start
    } else {
        record.len() as int
    };
    let field = record.subrange(s, record.len() as int);
    if !(data_type is UnsignedIntegerLE || data_type is SignedIntegerLE) {
        None
    } else if bits == 64 && bit_offset == 0 && field.len() >= 8 {
        Some(spec_u64_from_le_bytes(field.subrange(0, 8)))
    } else if 0 < bits < 64 && field.len() > 0 {
        let u = spec_extract_signal_raw(field, bit_offset as u16, bits as u16, ByteOrder::LittleEndian);
        if data_type is SignedIntegerLE {
            Some(spec_sign_extend(u, bits as u16) as u64)
        } else {
            Some(u)
        }
    } else {
        None
    }
}

/// Computes [`field_value`].
pub fn record_field_value(record: &[u8], start: usize, bit_offset: u8, bits: u32, data_type: DataType) -> (r: Option<u64>)
    ensures
        r == field_value(record@, start as int, bit_offset, bits, data_type),
{
    let n = record.len();
    let s = if start < n {
        start
    } else {
        n
    };
    let field = slice_subrange(record, s, n);
    let signed = match data_type {
        DataType::UnsignedIntegerLE => false,
        DataType::SignedIntegerLE => true,
        _ => {
            return None;
        },
    };
    if bits == 64 && bit_offset == 0 && field.len() >= 8 {
        Some(read_u64_at(field, 0))
    } else if bits > 0 && bits < 64 && field.len() > 0 {
        let u = extract_signal_raw(field, bit_offset as u16, bits as u16, ByteOrder::LittleEndian);
        if signed {
            Some(sign_extend(u, bits as u16) as u64)
        } else {
            Some(u)
        }
    } else {
        None
    }
}

/// The values of a channel in each whole record of `record_size` bytes of
/// `data` (none when records have no size), as [`raw_channel_values`]
/// computes them.
pub open spec fn raw_values_of(
    data: Seq<u8>,
    record_size: nat,
    start: int,
    bit_offset: u8,
    bits: u32,
    data_type: DataType,
) -> Seq<Option<u64>> {
    if record_size == 0 {
        Seq::empty()
    } else {
        Seq::new(
            (data.len() / record_size) as nat,
            |i: int| field_value(data.subrange(i * record_size, i * record_size + record_size), start, bit_offset, bits, data_type),
        )
    }
}

/// The values of a channel in each whole record of `record_size` bytes of
/// `data` (none when records have no size).
pub fn raw_channel_values(
    data: &[u8],
    record_size: usize,
    start: usize,
    bit_offset: u8,
    bits: u32,
    data_type: DataType,
) -> (r: Vec<Option<u64>>)
    ensures
        r@ == raw_values_of(data@, record_size as nat, start as int, bit_offset, bits, data_type),
        record_size == 0 ==> r@.len() == 0,
        record_size > 0 ==> r@.len() == (data@.len() as int) / (record_size as int),
        record_size > 0 ==> forall|i: int|
            0 <= i < r@.len() ==> #[trigger] r@[i] == field_value(
                data@.subrange(i * record_size, i * record_size + record_size),
                start as int,
                bit_offset,
                bits,
                data_type,
            ),
{
    let mut values: Vec<Option<u64>> = Vec::new();
    if record_size == 0 {
        return values;
    }
    let n = data.len();
    let mut off: usize = 0;
    while off <= n && n - off >= record_size
        invariant
            record_size > 0,
            n == data@.len(),
            off <= n,
            off == values@.len() * record_size,
            forall|i: int|
                0 <= i < values@.len() ==> #[trigger] values@[i] == field_value(
                    data@.subrange(i * record_size, i * record_size + record_size),
                    start as int,
                    bit_offset,
                    bits,
                    data_type,
                ),
        decreases n - off,
    {
        let rec = slice_subrange(data, off, off + record_size);
        let v = record_field_value(rec, start, bit_offset, bits, data_type);
        proof {
            assert((values@.len() + 1) * record_size == values@.len() * record_size + record_size) by (nonlinear_arith);
        }
        values.push(v);
        off = off + record_size;
    }
    proof {
        let k = values@.len() as int;
        assert(k * record_size <= n && n < k * record_size + record_size);
        assert((data@.len() as int) / (record_size as int) == k) by (nonlinear_arith)
            requires
                k * record_size <= data@.len() < k * record_size + record_size,
                record_size > 0,
                k >= 0,
        ;
    }
    values
}

/// Whether the sample of a channel in `record` is valid: a channel flagged
/// as having no valid values (flag bit 0) has none; a channel whose
/// invalidation bit is valid (flag bit 1) has an invalid sample where bit
/// `pos` of the invalidation bytes, which start `inval_start` bytes into
/// the record, is set; any other sample is valid.
pub open spec fn sample_valid(record: Seq<u8>, inval_start: int, flags: u32, pos: u32) -> bool {
    if flags & 1 != 0 {
        false
    } else if flags & 2 != 0 {
        let byte = inval_start + pos / 8;
        !(byte < record.len() && (record[byte] >> (pos % 8) as u8) & 1 == 1)
    } else {
        true
    }
}

/// Computes [`sample_valid`].
pub fn sample_is_valid(record: &[u8], inval_start: usize, flags: u32, pos: u32) -> (r: bool)
    ensures
        r == sample_valid(record@, inval_start as int, flags, pos),
{
    if flags & 1 != 0 {
        false
    } else if flags & 2 != 0 {
        let n = record.len();
        let skip = (pos / 8) as usize;
        if inval_start >= n || skip >= n - inval_start {
            true
        } else {
            let shift = (pos % 8) as u8;
            (record[inval_start + skip] >> shift) & 1 != 1
        }
    } else {
        true
    }
}

/// `values`, one per whole record of `record_size` bytes of `data`, with
/// the values of invalid samples (see [`sample_valid`]) taken out.
pub open spec fn valid_values_of(
    data: Seq<u8>,
    record_size: nat,
    values: Seq<Option<u64>>,
    inval_start: int,
    flags: u32,
    pos: u32,
) -> Seq<Option<u64>> {
    Seq::new(
        values.len(),
        |i: int|
            if sample_valid(data.subrange(i * record_size, i * record_size + record_size), inval_start, flags, pos) {
                values[i]
            } else {
                None
            },
    )
}

/// Takes the values of invalid samples out of `values` (see
/// [`valid_values_of`]).
pub fn keep_valid_values(
    data: &[u8],
    record_size: usize,
    values: Vec<Option<u64>>,
    inval_start: usize,
    flags: u32,
    pos: u32,
) -> (r: Vec<Option<u64>>)
    requires
        values@.len() * record_size <= data@.len(),
    ensures
        r@ == valid_values_of(data@, record_size as nat, values@, inval_start as int, flags, pos),
{
    let mut out: Vec<Option<u64>> = Vec::new();
    let n = data.len();
    let mut i: usize = 0;
    while i < values.len()
        invariant
            n == data@.len(),
            i <= values@.len(),
            values@.len() * record_size <= data@.len(),
            out@.len() == i,
            forall|k: int|
                0 <= k < i ==> #[trigger] out@[k] == valid_values_of(
                    data@,
                    record_size as nat,
                    values@,
                    inval_start as int,
                    flags,
                    pos,
                )[k],
        decreases values@.len() - i,
    {
        proof {
            assert(i * record_size + record_size <= values@.len() * record_size) by (nonlinear_arith)
                requires
                    i < values@.len(),
                    record_size >= 0,
            ;
            assert(i * record_size >= 0) by (nonlinear_arith);
            assert(i * record_size + record_size <= n);
        }
        let start: usize = i * record_size;
        let rec = slice_subrange(data, start, start + record_size);
        let v = if sample_is_valid(rec, inval_start, flags, pos) {
            values[i]
        } else {
            None
        };
        out.push(v);
        i = i + 1;
    }
    proof {
        assert(out@ =~= valid_values_of(data@, record_size as nat, values@, inval_start as int, flags, pos));
    }
    out
}

/// A raw frame: timestamp, CAN ID, whether the identifier is extended,
/// and the data bytes.
pub type RawFrameView = (u64, u32, bool, Seq<u8>);

/// The view of a frame.
pub open spec fn frame_view(f: (u64, u32, bool, Vec<u8>)) -> RawFrameView {
    (f.0, f.1, f.2, f.3@)
}

/// The views of frames.
pub open spec fn frames_view(v: Seq<(u64, u32, bool, Vec<u8>)>) -> Seq<RawFrameView> {
    v.map_values(|f: (u64, u32, bool, Vec<u8>)| frame_view(f))
}

/// Value `i` of a column, `None` past its end.
pub open spec fn column_value(c: Seq<Option<u64>>, i: int) -> Option<u64> {
    if 0 <= i < c.len() {
        c[i]
    } else {
        None
    }
}

/// Byte `b` of the data of record `i`: the low byte of data column `b`,
/// zero where the column holds no value.
pub open spec fn data_byte(columns: Seq<Seq<Option<u64>>>, b: int, i: int) -> u8 {
    if 0 <= b < columns.len() {
        match column_value(columns[b], i) {
            Some(v) => v as u8,
            None => 0,
        }
    } else {
        0
    }
}

/// The frame of record `i`, when its timestamp, CAN ID and DLC are known:
/// the identifier is extended when the extension column holds a non-zero
/// value, and the data has as many bytes as the DLC gives, at most
/// `data_byte_count`.
pub open spec fn frame_of_record(
    timestamps: Seq<Option<u64>>,
    can_ids: Seq<Option<u64>>,
    dlcs: Seq<Option<u64>>,
    ides: Seq<Option<u64>>,
    columns: Seq<Seq<Option<u64>>>,
    data_byte_count: usize,
    i: int,
) -> Option<RawFrameView> {
    match (column_value(timestamps, i), column_value(can_ids, i), column_value(dlcs, i)) {
        (Some(t), Some(id), Some(d)) => {
            let extended = match column_value(ides, i) {
                Some(v) => v != 0,
                None => false,
            };
            let l = spec_dlc_to_len(d as u8);
            let len = if l < data_byte_count {
                l
            } else {
                data_byte_count
            };
            Some((t, id as u32, extended, Seq::new(len as nat, |b: int| data_byte(columns, b, i))))
        },
        _ => None,
    }
}

/// The frames of the first `n` records, in record order.
pub open spec fn assembled_frames(
    timestamps: Seq<Option<u64>>,
    can_ids: Seq<Option<u64>>,
    dlcs: Seq<Option<u64>>,
    ides: Seq<Option<u64>>,
    columns: Seq<Seq<Option<u64>>>,
    data_byte_count: usize,
    n: int,
) -> Seq<RawFrameView>
    decreases n,
{
    if n <= 0 {
        Seq::empty()
    } else {
        let prev = assembled_frames(timestamps, can_ids, dlcs, ides, columns, data_byte_count, n - 1);
        match frame_of_record(timestamps, can_ids, dlcs, ides, columns, data_byte_count, n - 1) {
            Some(f) => prev.push(f),
            None => prev,
        }
    }
}

/// The columns' values.
pub open spec fn columns_view(columns: Seq<Vec<Option<u64>>>) -> Seq<Seq<Option<u64>>> {
    columns.map_values(|c: Vec<Option<u64>>| c@)
}

/// Assembles the frames of a raw frame group from its channels' values,
/// one per record of the timestamp column (see [`frame_of_record`]).
pub fn assemble_raw_frames(
    timestamps: &[Option<u64>],
    can_ids: &[Option<u64>],
    dlcs: &[Option<u64>],
    ides: &[Option<u64>],
    columns: &[Vec<Option<u64>>],
    data_byte_count: usize,
) -> (r: Vec<(u64, u32, bool, Vec<u8>)>)
    ensures
        frames_view(r@) == assembled_frames(
            timestamps@,
            can_ids@,
            dlcs@,
            ides@,
            columns_view(columns@),
            data_byte_count,
            timestamps@.len() as int,
        ),
{
    let ghost cols = columns_view(columns@);
    let mut frames: Vec<(u64, u32, bool, Vec<u8>)> = Vec::new();
    let mut i: usize = 0;
    while i < timestamps.len()
        invariant
            i <= timestamps@.len(),
            cols == columns_view(columns@),
            frames_view(frames@) == assembled_frames(timestamps@, can_ids@, dlcs@, ides@, cols, data_byte_count, i as int),
        decreases timestamps@.len() - i,
    {
        let ghost before = frames@;
        let t = timestamps[i];
        let id = if i < can_ids.len() {
            can_ids[i]
        } else {
            None
        };
        let d = if i < dlcs.len() {
            dlcs[i]
        } else {
            None
        };
        match (t, id, d) {
            (Some(t), Some(id), Some(d)) => {
                let extended = if i < ides.len() {
                    match ides[i] {
                        Some(v) => v != 0,
                        None => false,
                    }
                } else {
                    false
                };
                let l = dlc_to_len(d as u8);
                let len = if l < data_byte_count {
                    l
                } else {
                    data_byte_count
                };
                let mut data: Vec<u8> = Vec::new();
                let mut b: usize = 0;
                while b < len
                    invariant
                        b <= len,
                        i < timestamps@.len(),
                        cols == columns_view(columns@),
                        data@ == Seq::new(b as nat, |q: int| data_byte(cols, q, i as int)),
                    decreases len - b,
                {
                    let byte: u8 = if b < columns.len() {
                        if i < columns[b].len() {
                            match columns[b][i] {
                                Some(v) => v as u8,
                                None => 0,
                            }
                        } else {
                            0
                        }
                    } else {
                        0
                    };
                    proof {
                        assert(byte == data_byte(cols, b as int, i as int));
                    }
                    data.push(byte);
                    b = b + 1;
                    proof {
                        assert(data@ =~= Seq::new(b as nat, |q: int| data_byte(cols, q, i as int)));
                    }
                }
                frames.push((t, id as u32, extended, data));
                proof {
                    assert(frames_view(frames@) =~= frames_view(before).push(frame_view(frames@.last())));
                }
            },
            _ => {},
        }
        i = i + 1;
    }
    frames
}

/// The position at which a frame with timestamp `t` goes into frames
/// ordered by timestamp: after every frame with a timestamp of at most
/// `t`, before the first later one.
pub open spec fn insertion_point(s: Seq<RawFrameView>, t: u64) -> int
    decreases s.len(),
{
    if s.len() == 0 {
        0
    } else if s[0].0 > t {
        0
    } else {
        1 + insertion_point(s.drop_first(), t)
    }
}

/// `s` ordered by timestamp, frames of equal timestamp in their order in
/// `s`.
pub open spec fn sorted_by_timestamp(s: Seq<RawFrameView>) -> Seq<RawFrameView>
    decreases s.len(),
{
    if s.len() == 0 {
        s
    } else {
        let rest = sorted_by_timestamp(s.drop_last());
        rest.insert(insertion_point(rest, s.last().0), s.last())
    }
}

/// Whether the timestamps of `s` never decrease.
pub open spec fn timestamps_ordered(s: Seq<RawFrameView>) -> bool {
    forall|a: int, b: int| 0 <= a < b < s.len() ==> (#[trigger] s[a]).0 <= (#[trigger] s[b]).0
}

/// The insertion point lies within the frames, after those with a
/// timestamp of at most `t` and before the others.
proof fn lemma_insertion_point(s: Seq<RawFrameView>, t: u64)
    requires
        timestamps_ordered(s),
    ensures
        0 <= insertion_point(s, t) <= s.len(),
        forall|a: int| 0 <= a < insertion_point(s, t) ==> (#[trigger] s[a]).0 <= t,
        forall|a: int| insertion_point(s, t) <= a < s.len() ==> (#[trigger] s[a]).0 > t,
    decreases s.len(),
{
    if s.len() > 0 && s[0].0 <= t {
        let d = s.drop_first();
        assert(timestamps_ordered(d)) by {
            assert forall|a: int, b: int| 0 <= a < b < d.len() implies (#[trigger] d[a]).0 <= (#[trigger] d[b]).0 by {
                assert(s[a + 1].0 <= s[b + 1].0);
            }
        }
        lemma_insertion_point(d, t);
        assert forall|a: int| 0 <= a < insertion_point(s, t) implies (#[trigger] s[a]).0 <= t by {
            if a > 0 {
                assert(s[a] == d[a - 1]);
            }
        }
        assert forall|a: int| insertion_point(s, t) <= a < s.len() implies (#[trigger] s[a]).0 > t by {
            assert(s[a] == d[a - 1]);
        }
    } else if s.len() > 0 {
        assert forall|a: int| insertion_point(s, t) <= a < s.len() implies (#[trigger] s[a]).0 > t by {
            assert(s[0].0 <= s[a].0);
        }
    }
}

/// Ordering by timestamp keeps every frame and orders the timestamps.
pub proof fn lemma_sorted_by_timestamp(s: Seq<RawFrameView>)
    ensures
        sorted_by_timestamp(s).len() == s.len(),
        timestamps_ordered(sorted_by_timestamp(s)),
        sorted_by_timestamp(s).to_multiset() == s.to_multiset(),
    decreases s.len(),
{
    if s.len() > 0 {
        let rest = sorted_by_timestamp(s.drop_last());
        lemma_sorted_by_timestamp(s.drop_last());
        let x = s.last();
        lemma_insertion_point(rest, x.0);
        let p = insertion_point(rest, x.0);
        let r = rest.insert(p, x);
        assert forall|a: int, b: int| 0 <= a < b < r.len() implies (#[trigger] r[a]).0 <= (#[trigger] r[b]).0 by {
            if b < p {
                assert(r[a] == rest[a] && r[b] == rest[b]);
            } else if b == p {
                assert(r[a] == rest[a]);
            } else if a < p {
                assert(r[a] == rest[a] && r[b] == rest[b - 1]);
            } else if a == p {
                assert(r[b] == rest[b - 1]);
            } else {
                assert(r[a] == rest[a - 1] && r[b] == rest[b - 1]);
            }
        }
        vstd::seq_lib::lemma_multiset_commutative(s.drop_last(), seq![x]);
        assert(s =~= s.drop_last() + seq![x]);
        assert(rest.insert(p, x) =~= rest.subrange(0, p) + seq![x] + rest.subrange(p, rest.len() as int));
        assert(rest =~= rest.subrange(0, p) + rest.subrange(p, rest.len() as int));
        vstd::seq_lib::lemma_multiset_commutative(rest.subrange(0, p), rest.subrange(p, rest.len() as int));
        vstd::seq_lib::lemma_multiset_commutative(rest.subrange(0, p) + seq![x], rest.subrange(p, rest.len() as int));
        vstd::seq_lib::lemma_multiset_commutative(rest.subrange(0, p), seq![x]);
    }
}

/// The position at which a frame with timestamp `t` goes into `v`, which
/// is ordered by timestamp.
fn find_insertion_point(v: &Vec<(u64, u32, bool, Vec<u8>)>, t: u64) -> (r: usize)
    ensures
        r == insertion_point(frames_view(v@), t),
{
    let ghost s = frames_view(v@);
    let mut j: usize = 0;
    assert(s.subrange(0, s.len() as int) =~= s);
    while j < v.len() && v[j].0 <= t
        invariant
            j <= v@.len(),
            s == frames_view(v@),
            insertion_point(s, t) == j + insertion_point(s.subrange(j as int, s.len() as int), t),
        decreases v@.len() - j,
    {
        assert(s.subrange(j as int, s.len() as int).drop_first() =~= s.subrange(j + 1, s.len() as int));
        assert(s.subrange(j as int, s.len() as int)[0] == s[j as int]);
        j = j + 1;
    }
    proof {
        if j < v@.len() {
            assert(s.subrange(j as int, s.len() as int)[0] == s[j as int]);
        } else {
            assert(s.subrange(j as int, s.len() as int).len() == 0);
        }
    }
    j
}

/// Orders frames by timestamp, frames of equal timestamp in their given
/// order.
pub fn sort_frames_by_timestamp(frames: Vec<(u64, u32, bool, Vec<u8>)>) -> (r: Vec<(u64, u32, bool, Vec<u8>)>)
    ensures
        frames_view(r@) == sorted_by_timestamp(frames_view(frames@)),
{
    let ghost input = frames_view(frames@);
    let n = frames.len();
    let mut rest = frames;
    let mut sorted: Vec<(u64, u32, bool, Vec<u8>)> = Vec::new();
    let mut k: usize = 0;
    assert(input.subrange(0, 0) =~= Seq::<RawFrameView>::empty());
    assert(input.subrange(0, n as int) =~= input);
    while k < n
        invariant
            n == input.len(),
            k <= n,
            frames_view(rest@) == input.subrange(k as int, n as int),
            frames_view(sorted@) == sorted_by_timestamp(input.subrange(0, k as int)),
        decreases n - k,
    {
        let ghost before = frames_view(sorted@);
        assert(frames_view(rest@).len() == rest@.len());
        assert(frames_view(rest@)[0] == input[k as int]);
        let ghost first = rest@[0];
        let ghost rest_before = rest@;
        assert(frame_view(first) == input[k as int]);
        let f = rest.remove(0);
        assert(f == first);
        assert(rest@ =~= rest_before.subrange(1, rest_before.len() as int));
        let p = find_insertion_point(&sorted, f.0);
        proof {
            lemma_sorted_by_timestamp(input.subrange(0, k as int));
            lemma_insertion_point(before, f.0);
        }
        sorted.insert(p, f);
        proof {
            let pre = input.subrange(0, k + 1);
            assert(pre.drop_last() =~= input.subrange(0, k as int));
            assert(pre.last() == input[k as int]);
            assert(frame_view(f) == input[k as int]);
            assert(frames_view(sorted@) =~= before.insert(p as int, frame_view(f)));
            assert forall|j: int| 0 <= j < rest@.len() implies #[trigger] frames_view(rest@)[j] == input.subrange(k + 1, n as int)[j] by {
                assert(rest@[j] == rest_before[j + 1]);
                assert(frames_view(rest_before)[j + 1] == input.subrange(k as int, n as int)[j + 1]);
            }
            assert(frames_view(rest@) =~= input.subrange(k + 1, n as int));
        }
        k = k + 1;
    }
    proof {
        assert(input.subrange(0, n as int) =~= input);
    }
    sorted
}

/// Whether channel `c` of group `g` of `index` is a variable-length
/// channel with signal data.
pub open spec fn is_vlsd(index: &MdfIndex, g: int, c: int) -> bool {
    index.channel_groups@[g].channels@[c].channel_type == 1
        && index.channel_groups@[g].channels@[c].vlsd_data_address is Some
}

/// Whether channel `c` of group `g` of `index` can be read as raw integer
/// values: both exist, the channel is not a variable-length channel with
/// signal data, and a record and the channel's start within it can be
/// addressed.
pub open spec fn raw_channel_readable(index: &MdfIndex, g: int, c: int) -> bool {
    &&& 0 <= g < index.channel_groups@.len()
    &&& 0 <= c < index.channel_groups@[g].channels@.len()
    &&& !is_vlsd(index, g, c)
    &&& index.channel_groups@[g].record_id_len + index.channel_groups@[g].record_size
        + index.channel_groups@[g].invalidation_bytes <= usize::MAX
    &&& index.channel_groups@[g].record_id_len + index.channel_groups@[g].channels@[c].byte_offset <= usize::MAX
}

/// Whether a data block can be read by [`read_raw_channel`]: it is not
/// compressed and is at least as long as its header.
pub open spec fn data_block_readable(d: DataBlockInfo) -> bool {
    !d.is_compressed && d.size >= 24 && d.file_offset <= u64::MAX - 24
}

/// Whether every channel that `raw` names in its group of `index` can be
/// read as raw integer values.
pub open spec fn raw_group_readable(index: &MdfIndex, raw: RawCanGroup) -> bool {
    let g = raw.group_index as int;
    &&& raw_channel_readable(index, g, raw.timestamp_channel as int)
    &&& raw_channel_readable(index, g, raw.can_id_channel as int)
    &&& raw_channel_readable(index, g, raw.dlc_channel as int)
    &&& raw.ide_channel matches Some(c) ==> raw_channel_readable(index, g, c as int)
    &&& forall|k: int|
        0 <= k < raw.data_channels@.len() ==> raw_channel_readable(index, g, #[trigger] raw.data_channels@[k] as int)
    &&& forall|b: int|
        0 <= b < index.channel_groups@[g].data_blocks@.len() ==> data_block_readable(
            #[trigger] index.channel_groups@[g].data_blocks@[b],
        )
}

/// The bytes of data block `d` of the file `file` after its header.
pub open spec fn block_data(file: Seq<u8>, d: DataBlockInfo) -> Seq<u8> {
    file.subrange(d.file_offset + 24, d.file_offset + d.size)
}

/// The values of channel `c` of group `g` of `index` in the first `n` data
/// blocks of the group, block after block, as the file `file` holds them.
pub open spec fn channel_values_read(index: &MdfIndex, g: int, c: int, file: Seq<u8>, n: int) -> Seq<Option<u64>>
    decreases n,
{
    if n <= 0 {
        Seq::empty()
    } else {
        let grp = index.channel_groups@[g];
        let ch = grp.channels@[c];
        let data = block_data(file, grp.data_blocks@[n - 1]);
        let rs = (grp.record_id_len + grp.record_size + grp.invalidation_bytes) as nat;
        channel_values_read(index, g, c, file, n - 1) + valid_values_of(
            data,
            rs,
            raw_values_of(data, rs, grp.record_id_len + ch.byte_offset, ch.bit_offset, ch.bit_count, ch.data_type),
            grp.record_id_len + grp.record_size,
            ch.flags,
            ch.pos_invalidation_bit,
        )
    }
}

/// The values of channel `c` of group `g` of `index`, as the file `file`
/// holds them.
pub open spec fn channel_values_in(index: &MdfIndex, g: int, c: int, file: Seq<u8>) -> Seq<Option<u64>> {
    channel_values_read(index, g, c, file, index.channel_groups@[g].data_blocks@.len() as int)
}

/// Reads the unsigned or signed little-endian integer values of channel
/// `channel_index` of group `group_index` from the group's data blocks
/// through `reader` (see [`raw_channel_values`]), block by block; an
/// invalid sample (see [`sample_valid`]) gives no value. Fails
/// when either index is out of range, for a variable-length channel, at a
/// compressed block, at a block shorter than its header, when the records
/// are too large to address, and when the reader fails.
pub fn read_raw_channel<R: ByteRangeReader>(
    index: &MdfIndex,
    group_index: usize,
    channel_index: usize,
    reader: &mut R,
) -> (r: Result<Vec<Option<u64>>>)
    ensures
        group_index >= index.channel_groups@.len() ==> r is Err,
        group_index < index.channel_groups@.len() && channel_index
            >= index.channel_groups@[group_index as int].channels@.len() ==> r is Err,
        group_index < index.channel_groups@.len() && channel_index
            < index.channel_groups@[group_index as int].channels@.len() && is_vlsd(
            index,
            group_index as int,
            channel_index as int,
        ) ==> r is Err,
        raw_channel_readable(index, group_index as int, channel_index as int) && index.channel_groups@[
            group_index as int].data_blocks@.len() == 0 ==> (r matches Ok(v) && v@.len() == 0),
        raw_channel_readable(index, group_index as int, channel_index as int) && index.channel_groups@[
            group_index as int].data_blocks@.len() > 0 && !data_block_readable(
            index.channel_groups@[group_index as int].data_blocks@[0],
        ) ==> r is Err,
        r is Ok ==> raw_channel_readable(index, group_index as int, channel_index as int),
        old(reader).faithful() ==> final(reader).faithful() && final(reader).file() == old(reader).file(),
        old(reader).faithful() ==> (r matches Ok(v) ==> v@ == channel_values_in(
            index,
            group_index as int,
            channel_index as int,
            old(reader).file(),
        )),
        r is Ok ==> forall|b: int|
            0 <= b < index.channel_groups@[group_index as int].data_blocks@.len() ==> data_block_readable(
                #[trigger] index.channel_groups@[group_index as int].data_blocks@[b],
            ),
{
    if group_index >= index.channel_groups.len() {
        return Err(Error::BlockSerializationError(concat_str("Invalid group index", "")));
    }
    let group = &index.channel_groups[group_index];
    if channel_index >= group.channels.len() {
        return Err(Error::BlockSerializationError(concat_str("Invalid channel index", "")));
    }
    let channel = &group.channels[channel_index];
    if channel.channel_type == 1 && channel.vlsd_data_address.is_some() {
        return Err(Error::BlockSerializationError(concat_str("VLSD channels not yet supported in index reader", "")));
    }
    let total: u64 = group.record_id_len as u64 + group.record_size as u64 + group.invalidation_bytes as u64;
    if total > usize::MAX as u64 || group.record_id_len as u64 + channel.byte_offset as u64 > usize::MAX as u64 {
        return Err(Error::BlockSerializationError(concat_str("Record size exceeds addressable memory", "")));
    }
    let record_size = total as usize;
    let start = group.record_id_len as usize + channel.byte_offset as usize;
    let inval_start = group.record_id_len as usize + group.record_size as usize;
    let mut values: Vec<Option<u64>> = Vec::new();
    let mut b: usize = 0;
    while b < group.data_blocks.len()
        invariant
            b <= group.data_blocks@.len(),
            forall|k: int| 0 <= k < b ==> data_block_readable(#[trigger] group.data_blocks@[k]),
            b == 0 ==> values@.len() == 0,
            group_index < index.channel_groups@.len(),
            *group == index.channel_groups@[group_index as int],
            channel_index < group.channels@.len(),
            *channel == group.channels@[channel_index as int],
            record_size == group.record_id_len + group.record_size + group.invalidation_bytes,
            start == group.record_id_len + channel.byte_offset,
            inval_start == group.record_id_len + group.record_size,
            old(reader).faithful() ==> reader.faithful() && reader.file() == old(reader).file(),
            old(reader).faithful() ==> values@ == channel_values_read(
                index,
                group_index as int,
                channel_index as int,
                old(reader).file(),
                b as int,
            ),
        decreases group.data_blocks@.len() - b,
    {
        let block = &group.data_blocks[b];
        if block.is_compressed {
            return Err(Error::BlockSerializationError(
                concat_str("Compressed blocks not yet supported in index reader", ""),
            ));
        }
        if block.size < 24 || block.file_offset > u64::MAX - 24 {
            return Err(Error::TooShortBuffer {
                actual: 0,
                expected: 24,
                file: "can/raw_frames.rs",
                line: 0,
            });
        }
        let data = match reader.read_range(block.file_offset + 24, block.size - 24) {
            Ok(d) => d,
            Err(e) => {
                return Err(e);
            },
        };
        let block_values = raw_channel_values(
            data.as_slice(),
            record_size,
            start,
            channel.bit_offset,
            channel.bit_count,
            channel.data_type,
        );
        proof {
            if record_size > 0 {
                let len = data@.len() as int;
                let rs = record_size as int;
                assert((len / rs) * rs <= len) by (nonlinear_arith)
                    requires
                        rs > 0,
                        len >= 0,
                ;
            }
        }
        let block_values = keep_valid_values(
            data.as_slice(),
            record_size,
            block_values,
            inval_start,
            channel.flags,
            channel.pos_invalidation_bit,
        );
        let mut block_values = block_values;
        values.append(&mut block_values);
        b = b + 1;
    }
    Ok(values)
}

/// The records of `data`, each `record_size` bytes, in order; bytes after
/// the last whole record are left out.
pub open spec fn records_of(data: Seq<u8>, record_size: nat) -> Seq<Seq<u8>> {
    if record_size == 0 {
        Seq::empty()
    } else {
        Seq::new(
            (data.len() / record_size) as nat,
            |i: int| data.subrange(i * record_size, i * record_size + record_size),
        )
    }
}

/// Splits `data` into its records of `record_size` bytes (see
/// [`records_of`]).
pub fn split_records(data: &[u8], record_size: usize) -> (r: Vec<Vec<u8>>)
    ensures
        r@.len() == records_of(data@, record_size as nat).len(),
        forall|i: int| 0 <= i < r@.len() ==> (#[trigger] r@[i])@ == records_of(data@, record_size as nat)[i],
{
    let mut out: Vec<Vec<u8>> = Vec::new();
    if record_size == 0 {
        return out;
    }
    let n = data.len();
    let mut off: usize = 0;
    assert(out@.len() == 0);
    while off <= n && n - off >= record_size
        invariant
            record_size > 0,
            n == data@.len(),
            off <= n,
            off == out@.len() * record_size,
            forall|i: int|
                0 <= i < out@.len() ==> (#[trigger] out@[i])@ == data@.subrange(
                    i * record_size,
                    i * record_size + record_size,
                ),
        decreases n - off,
    {
        let rec = slice_subrange(data, off, off + record_size);
        let v = slice_to_vec(rec);
        proof {
            assert((out@.len() + 1) * record_size == out@.len() * record_size + record_size) by (nonlinear_arith);
        }
        out.push(v);
        off = off + record_size;
    }
    proof {
        let k = out@.len() as int;
        assert(k * record_size <= n && n < k * record_size + record_size);
        assert((data@.len() as int) / (record_size as int) == k) by (nonlinear_arith)
            requires
                k * record_size <= data@.len() < k * record_size + record_size,
                record_size > 0,
                k >= 0,
        ;
    }
    out
}

/// The records of group `g` of `index` in its first `n` data blocks,
/// block after block, as the file `file` holds them.
pub open spec fn records_read(index: &MdfIndex, g: int, file: Seq<u8>, n: int) -> Seq<Seq<u8>>
    decreases n,
{
    if n <= 0 {
        Seq::empty()
    } else {
        let grp = index.channel_groups@[g];
        records_read(index, g, file, n - 1) + records_of(
            block_data(file, grp.data_blocks@[n - 1]),
            (grp.record_id_len + grp.record_size + grp.invalidation_bytes) as nat,
        )
    }
}

/// The records of group `g` of `index`, as the file `file` holds them.
pub open spec fn records_in(index: &MdfIndex, g: int, file: Seq<u8>) -> Seq<Seq<u8>> {
    records_read(index, g, file, index.channel_groups@[g].data_blocks@.len() as int)
}

/// Reads the whole records (record ID, data bytes and invalidation bytes)
/// that hold the values of channel `channel_index` of group `group_index`
/// from the group's data blocks through `reader`, block by block. Fails as
/// [`read_raw_channel`] does: when either index is out of range, for a
/// variable-length channel, at a compressed block, at a block shorter
/// than its header, when the records are too large to address, and when
/// the reader fails.
pub fn read_channel_record_bytes<R: ByteRangeReader>(
    index: &MdfIndex,
    group_index: usize,
    channel_index: usize,
    reader: &mut R,
) -> (r: Result<Vec<Vec<u8>>>)
    ensures
        !raw_channel_readable(index, group_index as int, channel_index as int) ==> r is Err,
        raw_channel_readable(index, group_index as int, channel_index as int) && index.channel_groups@[
            group_index as int].data_blocks@.len() == 0 ==> (r matches Ok(v) && v@.len() == 0),
        raw_channel_readable(index, group_index as int, channel_index as int) && index.channel_groups@[
            group_index as int].data_blocks@.len() > 0 && !data_block_readable(
            index.channel_groups@[group_index as int].data_blocks@[0],
        ) ==> r is Err,
        r is Ok ==> forall|b: int|
            0 <= b < index.channel_groups@[group_index as int].data_blocks@.len() ==> data_block_readable(
                #[trigger] index.channel_groups@[group_index as int].data_blocks@[b],
            ),
        old(reader).faithful() ==> final(reader).faithful() && final(reader).file() == old(reader).file(),
        old(reader).faithful() ==> (r matches Ok(v) ==> v@.map_values(|x: Vec<u8>| x@) == records_in(
            index,
            group_index as int,
            old(reader).file(),
        )),
{
    if group_index >= index.channel_groups.len() {
        return Err(Error::BlockSerializationError(concat_str("Invalid group index", "")));
    }
    let group = &index.channel_groups[group_index];
    if channel_index >= group.channels.len() {
        return Err(Error::BlockSerializationError(concat_str("Invalid channel index", "")));
    }
    let channel = &group.channels[channel_index];
    if channel.channel_type == 1 && channel.vlsd_data_address.is_some() {
        return Err(Error::BlockSerializationError(concat_str("VLSD channels not yet supported in index reader", "")));
    }
    let total: u64 = group.record_id_len as u64 + group.record_size as u64 + group.invalidation_bytes as u64;
    if total > usize::MAX as u64 || group.record_id_len as u64 + channel.byte_offset as u64 > usize::MAX as u64 {
        return Err(Error::BlockSerializationError(concat_str("Record size exceeds addressable memory", "")));
    }
    let record_size = total as usize;
    let mut records: Vec<Vec<u8>> = Vec::new();
    let mut b: usize = 0;
    while b < group.data_blocks.len()
        invariant
            b <= group.data_blocks@.len(),
            forall|k: int| 0 <= k < b ==> data_block_readable(#[trigger] group.data_blocks@[k]),
            b == 0 ==> records@.len() == 0,
            group_index < index.channel_groups@.len(),
            *group == index.channel_groups@[group_index as int],
            record_size == group.record_id_len + group.record_size + group.invalidation_bytes,
            old(reader).faithful() ==> reader.faithful() && reader.file() == old(reader).file(),
            old(reader).faithful() ==> records@.map_values(|x: Vec<u8>| x@) == records_read(
                index,
                group_index as int,
                old(reader).file(),
                b as int,
            ),
        decreases group.data_blocks@.len() - b,
    {
        let block = &group.data_blocks[b];
        if block.is_compressed {
            return Err(Error::BlockSerializationError(
                concat_str("Compressed blocks not yet supported in index reader", ""),
            ));
        }
        if block.size < 24 || block.file_offset > u64::MAX - 24 {
            return Err(Error::TooShortBuffer {
                actual: 0,
                expected: 24,
                file: "can/raw_frames.rs",
                line: 0,
            });
        }
        let data = match reader.read_range(block.file_offset + 24, block.size - 24) {
            Ok(d) => d,
            Err(e) => {
                return Err(e);
            },
        };
        let ghost before = records@;
        let mut block_records = split_records(data.as_slice(), record_size);
        let ghost added = block_records@;
        records.append(&mut block_records);
        proof {
            let f = |x: Vec<u8>| x@;
            assert(records@ == before + added);
            assert(added.map_values(f) =~= records_of(data@, record_size as nat));
            assert(records@.map_values(f) =~= before.map_values(f) + added.map_values(f));
        }
        b = b + 1;
    }
    Ok(records)
}

/// The data byte columns of a raw frame group, as the file `file` holds
/// them.
pub open spec fn data_columns_in(index: &MdfIndex, raw: RawCanGroup, file: Seq<u8>) -> Seq<Seq<Option<u64>>> {
    Seq::new(
        raw.data_channels@.len(),
        |k: int| channel_values_in(index, raw.group_index as int, raw.data_channels@[k] as int, file),
    )
}

/// The frames of a raw frame group, as the file `file` holds them: one
/// per record of its timestamp channel (see [`assembled_frames`]).
pub open spec fn group_frames_in(index: &MdfIndex, raw: RawCanGroup, file: Seq<u8>) -> Seq<RawFrameView> {
    let g = raw.group_index as int;
    let ts = channel_values_in(index, g, raw.timestamp_channel as int, file);
    assembled_frames(
        ts,
        channel_values_in(index, g, raw.can_id_channel as int, file),
        channel_values_in(index, g, raw.dlc_channel as int, file),
        match raw.ide_channel {
            Some(c) => channel_values_in(index, g, c as int, file),
            None => Seq::empty(),
        },
        data_columns_in(index, raw, file),
        raw.data_byte_count,
        ts.len() as int,
    )
}

/// The frames of the first `n` raw frame groups `groups`, group after
/// group, as the file `file` holds them.
pub open spec fn frames_in(index: &MdfIndex, groups: Seq<RawCanGroup>, file: Seq<u8>, n: int) -> Seq<RawFrameView>
    decreases n,
{
    if n <= 0 {
        Seq::empty()
    } else {
        frames_in(index, groups, file, n - 1) + group_frames_in(index, groups[n - 1], file)
    }
}

/// Reads every raw frame of the groups `groups` of `index` through
/// `reader`: the channels of each group are read (see
/// [`read_raw_channel`]), the frames assembled (see
/// [`assemble_raw_frames`]; without an identifier extension channel no
/// identifier is extended) and all frames ordered by timestamp, frames of
/// equal timestamp in the order read.
pub fn read_raw_frames<R: ByteRangeReader>(
    index: &MdfIndex,
    groups: &[RawCanGroup],
    reader: &mut R,
) -> (r: Result<Vec<(u64, u32, bool, Vec<u8>)>>)
    ensures
        groups@.len() == 0 ==> (r matches Ok(v) && v@.len() == 0),
        r is Ok ==> forall|k: int| 0 <= k < groups@.len() ==> raw_group_readable(index, #[trigger] groups@[k]),
        r matches Ok(v) ==> timestamps_ordered(frames_view(v@)),
        old(reader).faithful() ==> (r matches Ok(v) ==> frames_view(v@) == sorted_by_timestamp(
            frames_in(index, groups@, old(reader).file(), groups@.len() as int),
        )),
{
    let mut frames: Vec<(u64, u32, bool, Vec<u8>)> = Vec::new();
    let mut gi: usize = 0;
    while gi < groups.len()
        invariant
            gi <= groups@.len(),
            forall|k: int| 0 <= k < gi ==> raw_group_readable(index, #[trigger] groups@[k]),
            gi == 0 ==> frames@.len() == 0,
            old(reader).faithful() ==> reader.faithful() && reader.file() == old(reader).file(),
            old(reader).faithful() ==> frames_view(frames@) == frames_in(index, groups@, old(reader).file(), gi as int),
        decreases groups@.len() - gi,
    {
        let raw = &groups[gi];
        let g = raw.group_index;
        let timestamps = match read_raw_channel(index, g, raw.timestamp_channel, reader) {
            Ok(v) => v,
            Err(e) => {
                return Err(e);
            },
        };
        let can_ids = match read_raw_channel(index, g, raw.can_id_channel, reader) {
            Ok(v) => v,
            Err(e) => {
                return Err(e);
            },
        };
        let dlcs = match read_raw_channel(index, g, raw.dlc_channel, reader) {
            Ok(v) => v,
            Err(e) => {
                return Err(e);
            },
        };
        let ides: Vec<Option<u64>> = match raw.ide_channel {
            Some(c) => match read_raw_channel(index, g, c, reader) {
                Ok(v) => v,
                Err(e) => {
                    return Err(e);
                },
            },
            None => Vec::new(),
        };
        let mut columns: Vec<Vec<Option<u64>>> = Vec::new();
        let mut c: usize = 0;
        while c < raw.data_channels.len()
            invariant
                c <= raw.data_channels@.len(),
                forall|k: int| 0 <= k < c ==> raw_channel_readable(index, g as int, #[trigger] raw.data_channels@[k] as int),
                gi < groups@.len(),
                *raw == groups@[gi as int],
                g == raw.group_index,
                forall|k: int| 0 <= k < gi ==> raw_group_readable(index, #[trigger] groups@[k]),
                raw_channel_readable(index, g as int, raw.timestamp_channel as int),
                raw_channel_readable(index, g as int, raw.can_id_channel as int),
                raw_channel_readable(index, g as int, raw.dlc_channel as int),
                raw.ide_channel matches Some(ic) ==> raw_channel_readable(index, g as int, ic as int),
                forall|b: int|
                    0 <= b < index.channel_groups@[g as int].data_blocks@.len() ==> data_block_readable(
                        #[trigger] index.channel_groups@[g as int].data_blocks@[b],
                    ),
                old(reader).faithful() ==> reader.faithful() && reader.file() == old(reader).file(),
                old(reader).faithful() ==> frames_view(frames@) == frames_in(index, groups@, old(reader).file(), gi as int),
                old(reader).faithful() ==> columns_view(columns@) =~= data_columns_in(index, *raw, old(reader).file()).subrange(0, c as int),
                old(reader).faithful() ==> timestamps@ == channel_values_in(index, g as int, raw.timestamp_channel as int, old(reader).file()),
                old(reader).faithful() ==> can_ids@ == channel_values_in(index, g as int, raw.can_id_channel as int, old(reader).file()),
                old(reader).faithful() ==> dlcs@ == channel_values_in(index, g as int, raw.dlc_channel as int, old(reader).file()),
                old(reader).faithful() ==> ides@ == match raw.ide_channel {
                    Some(ic) => channel_values_in(index, g as int, ic as int, old(reader).file()),
                    None => Seq::empty(),
                },
            decreases raw.data_channels@.len() - c,
        {
            let column = match read_raw_channel(index, g, raw.data_channels[c], reader) {
                Ok(v) => v,
                Err(e) => {
                    return Err(e);
                },
            };
            columns.push(column);
            c = c + 1;
        }
        let group_frames = assemble_raw_frames(
            timestamps.as_slice(),
            can_ids.as_slice(),
            dlcs.as_slice(),
            ides.as_slice(),
            columns.as_slice(),
            raw.data_byte_count,
        );
        let mut group_frames = group_frames;
        let ghost before = frames@;
        let ghost added = group_frames@;
        frames.append(&mut group_frames);
        proof {
            assert(frames_view(frames@) =~= frames_view(before) + frames_view(added));
            if old(reader).faithful() {
                assert(columns_view(columns@) =~= data_columns_in(index, *raw, old(reader).file()));
                assert(frames_in(index, groups@, old(reader).file(), gi + 1) == frames_in(
                    index,
                    groups@,
                    old(reader).file(),
                    gi as int,
                ) + group_frames_in(index, groups@[gi as int], old(reader).file()));
            }
        }
        gi = gi + 1;
    }
    let sorted = sort_frames_by_timestamp(frames);
    proof {
        lemma_sorted_by_timestamp(frames_view(frames@));
    }
    Ok(sorted)
}

/// Record `i` of the records of `frames` is the record of frame `i`.
proof fn lemma_record_at(frames: Seq<(u64, u8, Seq<u8>, FdFlags)>, can_id: u32, n: nat, i: int)
    requires
        0 <= i < frames.len(),
    ensures
        raw_records(frames, can_id, n).subrange(i * (14 + n), i * (14 + n) + (14 + n)) == raw_record_bytes(
            frames[i],
            can_id,
            n,
        ),
    decreases frames.len(),
{
    let rs = 14 + n;
    let prev = frames.drop_last();
    lemma_raw_records_len(prev, can_id, n);
    lemma_raw_records_len(frames, can_id, n);
    let all = raw_records(frames, can_id, n);
    let head = raw_records(prev, can_id, n);
    assert(all == head + raw_record_bytes(frames.last(), can_id, n));
    if i < frames.len() - 1 {
        lemma_record_at(prev, can_id, n, i);
        assert(i * rs + rs <= prev.len() * rs) by (nonlinear_arith)
            requires
                i + 1 <= prev.len(),
                rs >= 0,
        ;
        assert(i * rs >= 0) by (nonlinear_arith)
            requires
                i >= 0,
                rs >= 0,
        ;
        assert(all.subrange(i * rs, i * rs + rs) =~= head.subrange(i * rs, i * rs + rs));
        assert(prev[i] == frames[i]);
    } else {
        assert(i * rs == prev.len() * rs);
        assert(all.subrange(i * rs, i * rs + rs) =~= raw_record_bytes(frames.last(), can_id, n));
    }
}

/// An eight-bit unsigned field reads back its byte.
proof fn lemma_byte_field(r: Seq<u8>, s: int)
    requires
        0 <= s < r.len(),
    ensures
        field_value(r, s, 0, 8, DataType::UnsignedIntegerLE) == Some(r[s] as u64),
{
    let field = r.subrange(s, r.len() as int);
    lemma2_to64();
    reveal_with_fuel(le_bytes_value, 2);
    assert(field[0] == r[s]);
    assert(byte_or_zero(field, 0) == r[s] as nat);
    assert(le_bytes_value(field, 0, 0) == 0);
    assert(pow2(0) == 1);
    assert(le_bytes_value(field, 0, 1) == le_bytes_value(field, 0, 0) + byte_or_zero(field, 0) * pow2(0));
    assert(le_bytes_value(field, 0, 1) == r[s] as nat);
    assert(pow2(8) == 256);
    assert((r[s] as nat / pow2(0)) % pow2(8) == r[s] as nat);
    assert(spec_extract_signal_raw(field, 0, 8, ByteOrder::LittleEndian) == r[s] as u64);
}

/// The timestamp field of a frame's record reads back the timestamp.
proof fn lemma_timestamp_field(f: (u64, u8, Seq<u8>, FdFlags), can_id: u32, n: nat)
    ensures
        field_value(raw_record_bytes(f, can_id, n), 0, 0, 64, DataType::UnsignedIntegerLE) == Some(f.0),
{
    let r = raw_record_bytes(f, can_id, n);
    let field = r.subrange(0, r.len() as int);
    lemma_le_bytes_u64(f.0);
    lemma_auto_spec_u64_to_from_le_bytes();
    assert(field.subrange(0, 8) =~= le_bytes(f.0, 8));
}

/// The CAN ID field of a frame's record reads back the CAN ID.
proof fn lemma_id_field(f: (u64, u8, Seq<u8>, FdFlags), can_id: u32, n: nat)
    ensures
        field_value(raw_record_bytes(f, can_id, n), 8, 0, 32, DataType::UnsignedIntegerLE) == Some(can_id as u64),
{
    let r = raw_record_bytes(f, can_id, n);
    let field = r.subrange(8, r.len() as int);
    let x = can_id as u64;
    lemma2_to64();
    reveal_with_fuel(le_bytes_value, 5);
    assert(x < 0x1_0000_0000);
    let b0 = x & 0xff;
    let b1 = (x >> 8u64) & 0xff;
    let b2 = (x >> 16u64) & 0xff;
    let b3 = (x >> 24u64) & 0xff;
    assert(b0 < 256 && b1 < 256 && b2 < 256 && b3 < 256) by (bit_vector)
        requires
            b0 == x & 0xff,
            b1 == (x >> 8u64) & 0xff,
            b2 == (x >> 16u64) & 0xff,
            b3 == (x >> 24u64) & 0xff,
    ;
    assert(b0 + b1 * 256 + b2 * 65536 + b3 * 16777216 == x) by (bit_vector)
        requires
            x < 0x1_0000_0000,
            b0 == x & 0xff,
            b1 == (x >> 8u64) & 0xff,
            b2 == (x >> 16u64) & 0xff,
            b3 == (x >> 24u64) & 0xff,
    ;
    assert((x >> 0u64) & 0xff == b0) by (bit_vector)
        requires
            b0 == x & 0xff,
    ;
    assert(field[0] == word_byte(x, 0));
    assert(field[1] == word_byte(x, 1));
    assert(field[2] == word_byte(x, 2));
    assert(field[3] == word_byte(x, 3));
    assert(word_byte(x, 0) == b0 as u8);
    assert(word_byte(x, 1) == b1 as u8);
    assert(word_byte(x, 2) == b2 as u8);
    assert(word_byte(x, 3) == b3 as u8);
    assert(byte_or_zero(field, 0) == b0);
    assert(byte_or_zero(field, 1) == b1);
    assert(byte_or_zero(field, 2) == b2);
    assert(byte_or_zero(field, 3) == b3);
    assert(le_bytes_value(field, 0, 0) == 0);
    assert(le_bytes_value(field, 0, 1) == le_bytes_value(field, 0, 0) + byte_or_zero(field, 0) * pow2(0));
    assert(le_bytes_value(field, 0, 2) == le_bytes_value(field, 0, 1) + byte_or_zero(field, 1) * pow2(8));
    assert(le_bytes_value(field, 0, 3) == le_bytes_value(field, 0, 2) + byte_or_zero(field, 2) * pow2(16));
    assert(le_bytes_value(field, 0, 4) == le_bytes_value(field, 0, 3) + byte_or_zero(field, 3) * pow2(24));
    assert(le_bytes_value(field, 0, 4) == b0 + b1 * 256 + b2 * 65536 + b3 * 16777216);
    assert(le_bytes_value(field, 0, 4) == x);
    assert((x as nat / pow2(0)) % pow2(32) == x as nat);
}

/// The values of the unsigned little-endian channel of `bits` bits at
/// byte `start` of the records of `frames` logged under `can_id` with `n`
/// data bytes, as a reader decodes them.
pub open spec fn record_column(frames: Seq<(u64, u8, Seq<u8>, FdFlags)>, can_id: u32, n: nat, start: int, bits: u32) -> Seq<
    Option<u64>,
> {
    raw_values_of(raw_records(frames, can_id, n), (14 + n) as nat, start, 0, bits, DataType::UnsignedIntegerLE)
}

/// The values of the unsigned little-endian channel of `bits` bits at
/// byte `start` of the raw frame records of `n` data bytes in `data`.
pub open spec fn column_of_records(data: Seq<u8>, n: nat, start: int, bits: u32) -> Seq<Option<u64>> {
    raw_values_of(data, (14 + n) as nat, start, 0, bits, DataType::UnsignedIntegerLE)
}

/// The frames a reader assembles from the raw frame records of `n` data
/// bytes in `data`, one per record: the timestamp, CAN ID and length code
/// channels, no identifier extension channel, and one channel per data
/// byte (see [`assembled_frames`]).
pub open spec fn frames_from_records(data: Seq<u8>, n: nat) -> Seq<RawFrameView> {
    let ts = column_of_records(data, n, 0, 64);
    assembled_frames(
        ts,
        column_of_records(data, n, 8, 32),
        column_of_records(data, n, 12, 8),
        Seq::empty(),
        Seq::new(n, |k: int| column_of_records(data, n, 14 + k, 8)),
        n as usize,
        ts.len() as int,
    )
}

/// Value `i` of a record column is read from the record of frame `i`.
proof fn lemma_column_at(frames: Seq<(u64, u8, Seq<u8>, FdFlags)>, can_id: u32, n: nat, start: int, bits: u32, i: int)
    requires
        0 <= i < frames.len(),
    ensures
        record_column(frames, can_id, n, start, bits).len() == frames.len(),
        column_value(record_column(frames, can_id, n, start, bits), i) == field_value(
            raw_record_bytes(frames[i], can_id, n),
            start,
            0,
            bits,
            DataType::UnsignedIntegerLE,
        ),
{
    let rs = 14 + n;
    lemma_raw_records_len(frames, can_id, n);
    let len = frames.len() as int;
    assert((len * rs) / (rs as int) == len) by (nonlinear_arith)
        requires
            rs > 0,
    ;
    lemma_record_at(frames, can_id, n, i);
}

/// The frame read back from the record of frame `f` logged under
/// `can_id` with `n` data bytes: its timestamp, the CAN ID with a
/// standard identifier, and as many payload bytes as its data length code
/// gives, at most `n`, zero past the payload.
pub open spec fn frame_read_back(f: (u64, u8, Seq<u8>, FdFlags), can_id: u32, n: nat) -> RawFrameView {
    let l = spec_dlc_to_len(f.1);
    let len = if l < n {
        l as nat
    } else {
        n
    };
    (f.0, can_id, false, Seq::new(len, |b: int| payload_byte(f.2, b)))
}

/// The frame read back from the record of frame `i` (see
/// [`frame_read_back`]).
proof fn lemma_frame_read_back(frames: Seq<(u64, u8, Seq<u8>, FdFlags)>, can_id: u32, n: nat, i: int)
    requires
        0 <= i < frames.len(),
        n <= 64,
    ensures
        frame_of_record(
            record_column(frames, can_id, n, 0, 64),
            record_column(frames, can_id, n, 8, 32),
            record_column(frames, can_id, n, 12, 8),
            Seq::empty(),
            Seq::new(n, |k: int| record_column(frames, can_id, n, 14 + k, 8)),
            n as usize,
            i,
        ) == Some(frame_read_back(frames[i], can_id, n)),
{
    let f = frames[i];
    let r = raw_record_bytes(f, can_id, n);
    let cols = Seq::new(n, |k: int| record_column(frames, can_id, n, 14 + k, 8));
    lemma_column_at(frames, can_id, n, 0, 64, i);
    lemma_column_at(frames, can_id, n, 8, 32, i);
    lemma_column_at(frames, can_id, n, 12, 8, i);
    lemma_timestamp_field(f, can_id, n);
    lemma_id_field(f, can_id, n);
    lemma_byte_field(r, 12);
    assert(r[12] == f.1);
    let want = frame_read_back(f, can_id, n).3;
    let data = Seq::new(want.len(), |b: int| data_byte(cols, b, i));
    assert forall|b: int| 0 <= b < want.len() implies #[trigger] data[b] == want[b] by {
        lemma_column_at(frames, can_id, n, 14 + b, 8, i);
        lemma_byte_field(r, 14 + b);
        assert(r[14 + b] == payload_byte(f.2, b));
        assert(cols[b] == record_column(frames, can_id, n, 14 + b, 8));
    }
    assert(data =~= want);
}

/// Law: the records a raw frame group holds of frames logged under one
/// CAN ID read back, in order, as those frames under that ID with a
/// standard identifier (see [`frame_read_back`]).
pub proof fn lemma_raw_records_read_back(frames: Seq<(u64, u8, Seq<u8>, FdFlags)>, can_id: u32, n: nat)
    requires
        n <= 64,
    ensures
        frames_from_records(raw_records(frames, can_id, n), n) == frames.map_values(
            |f: (u64, u8, Seq<u8>, FdFlags)| frame_read_back(f, can_id, n),
        ),
{
    lemma_read_back_prefix(frames, can_id, n, frames.len() as int);
    assert(frames.take(frames.len() as int) =~= frames);
    let data = raw_records(frames, can_id, n);
    assert(column_of_records(data, n, 0, 64) == record_column(frames, can_id, n, 0, 64));
    assert(column_of_records(data, n, 8, 32) == record_column(frames, can_id, n, 8, 32));
    assert(column_of_records(data, n, 12, 8) == record_column(frames, can_id, n, 12, 8));
    assert(Seq::new(n, |k: int| column_of_records(data, n, 14 + k, 8)) =~= Seq::new(
        n,
        |k: int| record_column(frames, can_id, n, 14 + k, 8),
    ));
    if frames.len() > 0 {
        lemma_column_at(frames, can_id, n, 0, 64, 0);
    } else {
        lemma_raw_records_len(frames, can_id, n);
    }
}

/// Law: where an image holds the records of `frames` logged under
/// `can_id` with `n` data bytes (as a flush leaves them), those bytes read
/// back as the frames themselves when each payload is as long as its data
/// length code gives and fits the record (see
/// [`lemma_raw_records_read_back`]).
pub proof fn lemma_held_records_read_back(
    image: Seq<u8>,
    from: int,
    frames: Seq<(u64, u8, Seq<u8>, FdFlags)>,
    can_id: u32,
    n: nat,
)
    requires
        holds_records(image, from, frames, can_id, n),
        n <= 64,
        forall|i: int|
            0 <= i < frames.len() ==> #[trigger] frames[i].2.len() <= n && spec_dlc_to_len(frames[i].1) == frames[i].2.len(),
    ensures
        exists|p: int|
            from <= p && p + frames.len() * (14 + n) <= image.len() && #[trigger] frames_from_records(
                image.subrange(p, p + frames.len() * (14 + n)),
                n,
            ) == frames.map_values(|f: (u64, u8, Seq<u8>, FdFlags)| (f.0, can_id, false, f.2)),
{
    let p = choose|p: int|
        0 <= p && from <= p && p + frames.len() * (14 + n) <= image.len() && #[trigger] image.subrange(
            p,
            p + frames.len() * (14 + n),
        ) == raw_records(frames, can_id, n);
    lemma_raw_records_read_back(frames, can_id, n);
    let a = frames.map_values(|f: (u64, u8, Seq<u8>, FdFlags)| frame_read_back(f, can_id, n));
    let b = frames.map_values(|f: (u64, u8, Seq<u8>, FdFlags)| (f.0, can_id, false, f.2));
    assert forall|i: int| 0 <= i < frames.len() implies a[i] == b[i] by {
        assert(frames[i].2.len() <= n && spec_dlc_to_len(frames[i].1) == frames[i].2.len());
        assert(a[i].3 =~= frames[i].2);
    }
    assert(a =~= b);
    assert(frames_from_records(image.subrange(p, p + frames.len() * (14 + n)), n) == b);
}

proof fn lemma_read_back_prefix(frames: Seq<(u64, u8, Seq<u8>, FdFlags)>, can_id: u32, n: nat, k: int)
    requires
        0 <= k <= frames.len(),
        n <= 64,
    ensures
        assembled_frames(
            record_column(frames, can_id, n, 0, 64),
            record_column(frames, can_id, n, 8, 32),
            record_column(frames, can_id, n, 12, 8),
            Seq::empty(),
            Seq::new(n, |j: int| record_column(frames, can_id, n, 14 + j, 8)),
            n as usize,
            k,
        ) == frames.take(k).map_values(|f: (u64, u8, Seq<u8>, FdFlags)| frame_read_back(f, can_id, n)),
    decreases k,
{
    let view = |f: (u64, u8, Seq<u8>, FdFlags)| frame_read_back(f, can_id, n);
    if k == 0 {
        assert(frames.take(0).map_values(view) =~= Seq::<RawFrameView>::empty());
    } else {
        lemma_read_back_prefix(frames, can_id, n, k - 1);
        lemma_frame_read_back(frames, can_id, n, k - 1);
        assert(frames.take(k).map_values(view) =~= frames.take(k - 1).map_values(view).push(view(frames[k - 1])));
    }
}

} // verus!
