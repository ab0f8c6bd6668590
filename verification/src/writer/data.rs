//! Encoding records into data blocks.
use super::{align_pad, kind_count, lemma_record_lookup, record_position, splice, BlockId, ChannelLayout, MdfWriter, OpenDataBlock};
use crate::blocks::common::{header_bytes, u64_at, zeros};
use crate::blocks::{BlockHeader, DataType};
use crate::error::{Error, Result};
use vstd::bytes::*;
use vstd::prelude::*;
use vstd::utf8::encode_utf8;

verus! {


/// A value for one channel of a record.
pub enum DecodedValue {
    /// An unsigned integer
    UnsignedInteger(u64),
    /// A signed integer, stored in two's complement
    SignedInteger(i64),
    /// A floating-point value, given as its IEEE 754 bit pattern at the
    /// width of the channel it is written to
    Float(u64),
    /// A text, stored as its UTF-8 bytes
    String(String),
    /// Raw bytes
    ByteArray(Vec<u8>),
    /// A MIME sample
    MimeSample(Vec<u8>),
    /// A MIME stream
    MimeStream(Vec<u8>),
    /// A value of no known kind; it encodes as nothing
    Unknown,
}

/// Whether values of data type `d` are numbers packed into bits.
pub open spec fn is_numeric(d: DataType) -> bool {
    d is UnsignedIntegerLE || d is UnsignedIntegerBE || d is SignedIntegerLE || d is SignedIntegerBE
        || d is FloatLE || d is FloatBE
}

/// Whether numbers of data type `d` are stored most significant byte first.
pub open spec fn is_big_endian(d: DataType) -> bool {
    d is UnsignedIntegerBE || d is SignedIntegerBE || d is FloatBE
}

/// Whether values of data type `d` are stored as a run of bytes.
pub open spec fn is_byte_data(d: DataType) -> bool {
    d is StringLatin1 || d is StringUtf8 || d is StringUtf16LE || d is StringUtf16BE
        || d is ByteArray || d is MimeSample || d is MimeStream
}

/// The bits a numeric value is stored with.
pub open spec fn value_bits(v: DecodedValue) -> Option<u64> {
    match v {
        DecodedValue::UnsignedInteger(x) => Some(x),
        DecodedValue::SignedInteger(x) => Some(x as u64),
        DecodedValue::Float(b) => Some(b),
        _ => None,
    }
}

/// The bytes a text or byte value is stored as.
pub open spec fn value_bytes(v: DecodedValue) -> Option<Seq<u8>> {
    match v {
        DecodedValue::String(s) => Some(encode_utf8(s@)),
        DecodedValue::ByteArray(b) => Some(b@),
        DecodedValue::MimeSample(b) => Some(b@),
        DecodedValue::MimeStream(b) => Some(b@),
        _ => None,
    }
}

/// The lowest `bits` bits set.
pub open spec fn low_mask(bits: u32) -> u64 {
    if bits == 0 {
        0
    } else if bits >= 64 {
        u64::MAX
    } else {
        u64::MAX >> ((64 - bits) as u64)
    }
}

/// A number cut to `bit_count` bits and moved up by `bit_offset` bits,
/// within 64 bits.
pub open spec fn field_word(b: u64, bit_offset: u8, bit_count: u32) -> u64 {
    if bit_offset >= 64 {
        0
    } else {
        (b & low_mask(bit_count)) << (bit_offset as u64)
    }
}

/// Byte `i` of `w`, least significant first; zero beyond the eighth.
pub open spec fn word_byte(w: u64, i: int) -> u8 {
    if 0 <= i < 8 {
        ((w >> ((8 * i) as u64)) & 0xff) as u8
    } else {
        0
    }
}

/// The number of bytes a channel's value spans.
pub open spec fn field_width(l: ChannelLayout) -> int {
    (l.bit_offset + l.bit_count + 7) / 8
}

/// Byte `k` of the field that value `v` occupies in channel `l`: the
/// number's bytes in the channel's byte order, or the value's bytes, or
/// zero where the value does not fit the channel's data type.
pub open spec fn field_byte(l: ChannelLayout, v: DecodedValue, k: int) -> u8 {
    if is_numeric(l.data_type) {
        match value_bits(v) {
            Some(b) => word_byte(
                field_word(b, l.bit_offset, l.bit_count),
                if is_big_endian(l.data_type) {
                    field_width(l) - 1 - k
                } else {
                    k
                },
            ),
            None => 0,
        }
    } else if is_byte_data(l.data_type) {
        match value_bytes(v) {
            Some(p) => if 0 <= k < p.len() {
                p[k]
            } else {
                0
            },
            None => 0,
        }
    } else {
        0
    }
}

/// The little-endian data type a big-endian numeric type mirrors.
pub open spec fn little_endian_twin(d: DataType) -> DataType {
    if d is UnsignedIntegerBE {
        DataType::UnsignedIntegerLE
    } else if d is SignedIntegerBE {
        DataType::SignedIntegerLE
    } else {
        DataType::FloatLE
    }
}

/// Law: a value in a big-endian numeric channel (unsigned or signed
/// integer, or floating point) is stored most significant byte first: the
/// field's bytes are those of the same channel in little-endian order,
/// reversed.
pub proof fn lemma_big_endian_field_reversed(l: ChannelLayout, v: DecodedValue, k: int)
    requires
        l.data_type is UnsignedIntegerBE || l.data_type is SignedIntegerBE || l.data_type is FloatBE,
        0 <= k < field_width(l),
    ensures
        field_byte(l, v, k) == field_byte(
            ChannelLayout {
                data_type: little_endian_twin(l.data_type),
                byte_offset: l.byte_offset,
                bit_offset: l.bit_offset,
                bit_count: l.bit_count,
            },
            v,
            field_width(l) - 1 - k,
        ),
{
}

/// Law: a little-endian numeric channel stores byte `k` of the value's
/// (shifted) bits at byte `k` of its field.
pub proof fn lemma_little_endian_field(l: ChannelLayout, b: u64, k: int)
    requires
        l.data_type is UnsignedIntegerLE || l.data_type is SignedIntegerLE || l.data_type is FloatLE,
    ensures
        field_byte(l, DecodedValue::Float(b), k) == word_byte(field_word(b, l.bit_offset, l.bit_count), k),
        field_byte(l, DecodedValue::UnsignedInteger(b), k) == word_byte(field_word(b, l.bit_offset, l.bit_count), k),
{
}

/// Law: a 64-bit big-endian floating point channel at bit 0 holds the
/// value's eight bytes most significant first: byte `k` of the field is
/// byte `7 - k` of the little-endian bytes.
pub proof fn lemma_float64_big_endian_bytes(l: ChannelLayout, b: u64, k: int)
    requires
        l.data_type is FloatBE,
        l.bit_offset == 0,
        l.bit_count == 64,
        0 <= k < 8,
    ensures
        field_width(l) == 8,
        field_byte(l, DecodedValue::Float(b), k) == spec_u64_to_le_bytes(b)[7 - k],
{
    assert(b & u64::MAX == b) by (bit_vector);
    assert((b & u64::MAX) << 0u64 == b) by (bit_vector);
    assert(field_word(b, 0, 64) == b);
    spec_u64_to_le_bytes_to_open(b);
    let i = 7 - k;
    assert(((b >> 0u64) & 0xff) == (b & 0xff)) by (bit_vector);
    assert(word_byte(b, i) == spec_u64_to_le_bytes_open(b)[i]);
}

/// `rec` with the field of value `v` in channel `l`, starting at byte
/// `start`, merged in bit by bit; bytes past the record are dropped.
pub open spec fn place_value(rec: Seq<u8>, l: ChannelLayout, v: DecodedValue, start: int) -> Seq<u8> {
    Seq::new(
        rec.len(),
        |j: int|
            if start <= j < start + field_width(l) {
                rec[j] | field_byte(l, v, j - start)
            } else {
                rec[j]
            },
    )
}

/// A record of `size` bytes: zeros (the record ID among them, which takes
/// the first `rid` bytes), with the value of each channel merged in, in
/// channel order. Channels without a value stay zero.
pub open spec fn encode_record(layout: Seq<ChannelLayout>, values: Seq<DecodedValue>, rid: int, size: nat) -> Seq<u8>
    decreases layout.len(),
{
    if layout.len() == 0 {
        zeros(size)
    } else {
        let prev = encode_record(layout.drop_last(), values, rid, size);
        let i = layout.len() - 1;
        if i < values.len() {
            place_value(prev, layout[i], values[i], rid + layout[i].byte_offset)
        } else {
            prev
        }
    }
}

/// The number of record bytes (after the record ID) that the channels of
/// `layout` span.
pub open spec fn layout_end(layout: Seq<ChannelLayout>) -> int
    decreases layout.len(),
{
    if layout.len() == 0 {
        0
    } else {
        let l = layout.last();
        let e = l.byte_offset + field_width(l);
        let p = layout_end(layout.drop_last());
        if e > p {
            e
        } else {
            p
        }
    }
}

/// No channel reaches past 2^34 bytes.
pub proof fn lemma_layout_end_bound(layout: Seq<ChannelLayout>)
    ensures
        0 <= layout_end(layout) <= 0x4_0000_0000,
    decreases layout.len(),
{
    if layout.len() > 0 {
        lemma_layout_end_bound(layout.drop_last());
    }
}

/// The number of bytes a channel's value spans.
fn width_of(l: &ChannelLayout) -> (r: u64)
    ensures
        r == field_width(*l),
{
    (l.bit_offset as u64 + l.bit_count as u64 + 7) / 8
}

/// Computes [`field_byte`].
fn field_byte_of(l: &ChannelLayout, v: &DecodedValue, k: u64) -> (r: u8)
    requires
        k < field_width(*l),
    ensures
        r == field_byte(*l, *v, k as int),
{
    let d = l.data_type;
    let numeric = match d {
        DataType::UnsignedIntegerLE | DataType::UnsignedIntegerBE | DataType::SignedIntegerLE
        | DataType::SignedIntegerBE | DataType::FloatLE | DataType::FloatBE => true,
        _ => false,
    };
    if numeric {
        let bits: u64 = match v {
            DecodedValue::UnsignedInteger(x) => *x,
            DecodedValue::SignedInteger(x) => #[verifier::truncate] (*x as u64),
            DecodedValue::Float(b) => *b,
            _ => {
                return 0;
            },
        };
        let mask: u64 = if l.bit_count == 0 {
            0
        } else if l.bit_count >= 64 {
            u64::MAX
        } else {
            u64::MAX >> (64 - l.bit_count as u64)
        };
        let w: u64 = if l.bit_offset >= 64 {
            0
        } else {
            (bits & mask) << (l.bit_offset as u64)
        };
        let big = match d {
            DataType::UnsignedIntegerBE | DataType::SignedIntegerBE | DataType::FloatBE => true,
            _ => false,
        };
        let i: u64 = if big {
            width_of(l) - 1 - k
        } else {
            k
        };
        if i < 8 {
            ((w >> (8 * i)) & 0xff) as u8
        } else {
            0
        }
    } else {
        let p: &[u8] = match v {
            DecodedValue::String(s) => s.as_str().as_bytes(),
            DecodedValue::ByteArray(b) => b.as_slice(),
            DecodedValue::MimeSample(b) => b.as_slice(),
            DecodedValue::MimeStream(b) => b.as_slice(),
            _ => {
                return 0;
            },
        };
        let bytes_type = match d {
            DataType::StringLatin1 | DataType::StringUtf8 | DataType::StringUtf16LE
            | DataType::StringUtf16BE | DataType::ByteArray | DataType::MimeSample
            | DataType::MimeStream => true,
            _ => false,
        };
        if bytes_type && k < p.len() as u64 {
            p[k as usize]
        } else {
            0
        }
    }
}

/// The number of record bytes the channels of `layout` span.
pub fn layout_end_of(layout: &Vec<ChannelLayout>) -> (r: u64)
    ensures
        r == layout_end(layout@),
{
    let mut end: u64 = 0;
    let mut i: usize = 0;
    while i < layout.len()
        invariant
            i <= layout@.len(),
            end == layout_end(layout@.subrange(0, i as int)),
        decreases layout@.len() - i,
    {
        proof {
            let s = layout@.subrange(0, i + 1);
            assert(s.drop_last() =~= layout@.subrange(0, i as int));
            lemma_layout_end_bound(s);
        }
        let e = layout[i].byte_offset as u64 + width_of(&layout[i]);
        if e > end {
            end = e;
        }
        i = i + 1;
    }
    assert(layout@.subrange(0, i as int) =~= layout@);
    end
}

/// Builds the record that [`encode_record`] describes.
pub fn encode_record_bytes(layout: &Vec<ChannelLayout>, values: &[DecodedValue], rid: u8, size: usize) -> (rec: Vec<u8>)
    ensures
        rec@ == encode_record(layout@, values@, rid as int, size as nat),
{
    let mut rec: Vec<u8> = Vec::with_capacity(size);
    let mut z: usize = 0;
    while z < size
        invariant
            z <= size,
            rec@ == zeros(z as nat),
        decreases size - z,
    {
        rec.push(0u8);
        z = z + 1;
        assert(rec@ =~= zeros(z as nat));
    }
    assert(layout@.subrange(0, 0) =~= Seq::<ChannelLayout>::empty());
    let mut i: usize = 0;
    while i < layout.len()
        invariant
            i <= layout@.len(),
            rec@ == encode_record(layout@.subrange(0, i as int), values@, rid as int, size as nat),
            rec@.len() == size,
        decreases layout@.len() - i,
    {
        let ghost prev = rec@;
        proof {
            let s = layout@.subrange(0, i + 1);
            assert(s.drop_last() =~= layout@.subrange(0, i as int));
            assert(s[i as int] == layout@[i as int]);
        }
        if i < values.len() {
            let l = layout[i];
            let start: u64 = rid as u64 + l.byte_offset as u64;
            let w = width_of(&l);
            let mut k: u64 = 0;
            while k < w && start + k < size as u64
                invariant
                    start == rid + l.byte_offset,
                    w == field_width(l),
                    i < values@.len(),
                    rec@.len() == prev.len(),
                    prev.len() == size,
                    k <= w,
                    rec@ == Seq::new(
                        prev.len(),
                        |j: int|
                            if start <= j < start + k {
                                prev[j] | field_byte(l, values@[i as int], j - start)
                            } else {
                                prev[j]
                            },
                    ),
                decreases w - k,
            {
                let idx = (start + k) as usize;
                let b = rec[idx] | field_byte_of(&l, &values[i], k);
                rec.set(idx, b);
                k = k + 1;
                assert(rec@ =~= Seq::new(
                    prev.len(),
                    |j: int|
                        if start <= j < start + k {
                            prev[j] | field_byte(l, values@[i as int], j - start)
                        } else {
                            prev[j]
                        },
                ));
            }
            assert(rec@ =~= place_value(prev, l, values@[i as int], start as int));
        }
        i = i + 1;
    }
    assert(layout@.subrange(0, i as int) =~= layout@);
    rec
}

/// The identifier `##DT`.
pub open spec fn dt_id() -> Seq<char> {
    seq!['#', '#', 'D', 'T']
}

/// The header a data block is started with; its length is patched when
/// the block is finished.
pub open spec fn open_dt_header() -> Seq<u8> {
    header_bytes(dt_id(), 0, 24, 0)
}

/// The header of an empty data block.
fn dt_header_bytes() -> (r: Vec<u8>)
    ensures
        r@ == open_dt_header(),
        r@.len() == 24,
{
    let id = "##DT";
    proof {
        reveal_strlit("##DT");
    }
    let h = BlockHeader { id: String::from_str(id), reserved0: 0, block_len: 24, links_nr: 0 };
    assert(h.id@ =~= dt_id());
    match h.to_bytes() {
        Ok(b) => b,
        Err(_) => Vec::new(),
    }
}

impl MdfWriter {
    proof fn lemma_group_at(&self, i: int)
        requires
            self.wf(),
            0 <= i < self.groups@.len(),
        ensures
            self.has_group(self.groups@[i].cg),
            self.group_layout(self.groups@[i].cg) == self.groups@[i].channels@,
            self.group_record_bytes(self.groups@[i].cg) == self.groups@[i].record_bytes,
            self.open_block(self.groups@[i].cg) == self.groups@[i].open,
            self.group_data_group(self.groups@[i].cg) == self.groups@[i].dg,
            self.linkable(self.groups@[i].dg, 64),
            self.linkable(self.groups@[i].cg, 104),
            self.groups@[i].open matches Some(o) ==> o.pos + 24 <= self.bytes().len(),
    {
        self.lemma_group_index(i);
        assert(self.group_wf(self.groups@[i]));
    }

    /// Starts a data block for channel group `cg_id`, whose records begin
    /// with a record ID of `record_id_len` bytes; the data group's record
    /// ID length is set to match. Fails with [`Error::BlockLinkError`] when
    /// the group was not created by [`MdfWriter::add_channel_group`], and
    /// with [`Error::BlockSerializationError`] when a data block is already
    /// open for it or a record would not fit in memory; nothing is written
    /// then.
    pub fn start_data_block_for_cg(&mut self, cg_id: BlockId, record_id_len: u8) -> (r: Result<()>)
        requires
            old(self).wf(),
        ensures
            final(self).group_names_map() == old(self).group_names_map(),
            final(self).channel_units_map() == old(self).channel_units_map(),
            final(self).group_channel_names(cg_id) == old(self).group_channel_names(cg_id),
            final(self).cg_kept(old(self)),
            final(self).wf(),
            final(self).extends(old(self)),
            final(self).keeps_other_groups(old(self), cg_id),
            final(self).group_layout(cg_id) == old(self).group_layout(cg_id),
            final(self).group_record_bytes(cg_id) == old(self).group_record_bytes(cg_id),
            final(self).group_data_group(cg_id) == old(self).group_data_group(cg_id),
            r is Err ==> final(self).table() == old(self).table(),
            r is Ok ==> final(self).table() == record_position(
                old(self).table(),
                BlockId::DataBlock(kind_count(old(self).table(), 11) as usize),
                (old(self).bytes().len() + align_pad(old(self).bytes().len() as int)) as u64,
            ),
            !old(self).has_group(cg_id) ==> (r matches Err(e) && e is BlockLinkError),
            old(self).open_block(cg_id) is Some ==> (r matches Err(e) && e is BlockSerializationError),
            old(self).has_group(cg_id) && old(self).open_block(cg_id) is None ==> (r is Ok <==> record_id_len
                + crate::writer::data::layout_end(old(self).group_layout(cg_id)) <= usize::MAX),
            r is Err ==> final(self).bytes() == old(self).bytes() && final(self).open_block(cg_id)
                == old(self).open_block(cg_id),
            r is Ok ==> ({
                let p = old(self).bytes().len() + align_pad(old(self).bytes().len() as int);
                &&& final(self).open_block(cg_id) matches Some(o) && o.pos == p && o.record_size
                    == record_id_len + layout_end(old(self).group_layout(cg_id)) && o.record_id_len
                    == record_id_len && o.record_count == 0
                &&& final(self).position_of(BlockId::DataBlock(kind_count(old(self).table(), 11) as usize))
                    matches Some(q) && q == p
                &&& final(self).bytes() == splice(
                    old(self).bytes() + zeros(align_pad(old(self).bytes().len() as int) as nat)
                        + open_dt_header(),
                    old(self).position_of(old(self).group_data_group(cg_id))->0 + 56,
                    seq![record_id_len],
                )
            }),
            final(self).keeps_start(old(self)),
    {
        let ghost s0 = *self;
        let gi = match self.find_group(cg_id) {
            Some(i) => i,
            None => {
                proof {
                    self.lemma_kept_same_groups(self, cg_id);
                }
                return Err(Error::BlockLinkError(crate::text::concat_str("Channel group not found", "")));
            },
        };
        proof {
            self.lemma_group_at(gi as int);
            self.lemma_kept_same_groups(self, cg_id);
        }
        if self.groups[gi].open.is_some() {
            return Err(Error::BlockSerializationError(crate::text::concat_str("A data block is already open for this channel group", "")));
        }
        let end = layout_end_of(&self.groups[gi].channels);
        proof {
            lemma_layout_end_bound(self.groups@[gi as int].channels@);
        }
        let size: u64 = record_id_len as u64 + end;
        if size > usize::MAX as u64 {
            return Err(Error::BlockSerializationError(crate::text::concat_str("Record size exceeds addressable memory", "")));
        }
        let n = self.count_kind(11);
        let dt_id = BlockId::DataBlock(n);
        let header = dt_header_bytes();
        let p = match self.write_block_with_id(header.as_slice(), dt_id) {
            Ok(p) => p,
            Err(e) => {
                return Err(e);
            },
        };
        let ghost s1 = *self;
        proof {
            self.lemma_recorded(&s0, dt_id, p);
            lemma_record_lookup(s0.table(), dt_id, p, s0.groups@[gi as int].dg);
            self.lemma_group_at(gi as int);
            self.lemma_linkable_patchable(self.groups@[gi as int].dg, 56, 1);
        }
        let dg = self.groups[gi].dg;
        match self.update_block_u8(dg, 56, record_id_len) {
            Ok(()) => {},
            Err(e) => {
                return Err(e);
            },
        }
        let ghost s2 = *self;
        proof {
            self.lemma_kept_same_groups(&s1, cg_id);
            self.lemma_kept_trans(&s1, &s0, cg_id);
        }
        self.groups[gi].open = Some(
            OpenDataBlock { pos: p, record_size: size, record_id_len, record_count: 0 },
        );
        proof {
            assert forall|i: int| 0 <= i < self.groups@.len() implies self.group_wf(#[trigger] self.groups@[i]) by {
                assert(s2.group_wf(s2.groups@[i]));
            }
            assert(self.wf());
            self.lemma_other_groups(&s2, gi as int);
            self.lemma_group_at(gi as int);
            s2.lemma_group_at(gi as int);
            s2.lemma_kept_others(&s0, cg_id);
            self.lemma_keeps_trans(&s2, &s0, cg_id);
            assert forall|cg: BlockId| s0.has_group(cg) implies #[trigger] self.has_group(cg) by {
                assert(s2.has_group(cg));
                let j = choose|j: int| 0 <= j < s2.groups@.len() && #[trigger] s2.groups@[j].cg == cg;
                assert(self.groups@[j].cg == cg);
            }
            assert forall|id: BlockId| s0.position_of(id) is Some implies #[trigger] self.position_of(id) is Some by {
                assert(s2.position_of(id) is Some);
            }
            super::lemma_cg_record(&s0, self, dt_id, p);
        }
        Ok(())
    }

    /// Appends one record to the data block open for channel group
    /// `cg_id`: the values are encoded by the group's record layout (see
    /// [`encode_record`]). Fails with [`Error::BlockLinkError`] when the
    /// group was not created by [`MdfWriter::add_channel_group`] and with
    /// [`Error::BlockSerializationError`] when no data block is open for
    /// it; nothing is written then.
    pub fn write_record(&mut self, cg_id: BlockId, values: &[DecodedValue]) -> (r: Result<()>)
        requires
            old(self).wf(),
            old(self).open_block(cg_id) matches Some(o) ==> o.record_count < u64::MAX,
        ensures
            final(self).group_names_map() == old(self).group_names_map(),
            final(self).channel_units_map() == old(self).channel_units_map(),
            final(self).group_channel_names(cg_id) == old(self).group_channel_names(cg_id),
            final(self).cg_kept(old(self)),
            final(self).wf(),
            final(self).extends(old(self)),
            final(self).table() == old(self).table(),
            final(self).keeps_other_groups(old(self), cg_id),
            final(self).group_layout(cg_id) == old(self).group_layout(cg_id),
            final(self).group_record_bytes(cg_id) == old(self).group_record_bytes(cg_id),
            final(self).group_data_group(cg_id) == old(self).group_data_group(cg_id),
            !old(self).has_group(cg_id) ==> (r matches Err(e) && e is BlockLinkError),
            old(self).has_group(cg_id) && old(self).open_block(cg_id) is None ==> (r matches Err(e)
                && e is BlockSerializationError),
            r is Err ==> final(self).bytes() == old(self).bytes() && final(self).open_block(cg_id)
                == old(self).open_block(cg_id),
            old(self).open_block(cg_id) matches Some(o) ==> r is Ok && final(self).bytes()
                == old(self).bytes() + encode_record(
                old(self).group_layout(cg_id),
                values@,
                o.record_id_len as int,
                o.record_size as nat,
            ) && final(self).open_block(cg_id) == Some(
                OpenDataBlock { record_count: (o.record_count + 1) as u64, ..o },
            ),
            final(self).keeps_start(old(self)),
    {
        let ghost s0 = *self;
        proof {
            self.lemma_kept_same_groups(self, cg_id);
        }
        let gi = match self.find_group(cg_id) {
            Some(i) => i,
            None => {
                return Err(Error::BlockLinkError(crate::text::concat_str("Channel group not found", "")));
            },
        };
        proof {
            self.lemma_group_at(gi as int);
        }
        let o = match self.groups[gi].open {
            Some(o) => o,
            None => {
                return Err(Error::BlockSerializationError(crate::text::concat_str("No data block is open for this channel group", "")));
            },
        };
        let rec = encode_record_bytes(&self.groups[gi].channels, values, o.record_id_len, o.record_size as usize);
        crate::blocks::common::push_slice(&mut self.buf, rec.as_slice());
        let ghost s1 = *self;
        proof {
            assert forall|i: int| 0 <= i < self.block_positions@.len() implies #[trigger] self.block_positions@[i].1
                + super::block_span(self.block_positions@[i].0) <= self.buf@.len() by {
                assert(s0.block_positions@[i].1 + super::block_span(s0.block_positions@[i].0) <= s0.buf@.len());
            }
            assert forall|i: int| 0 <= i < self.groups@.len() implies self.group_wf(#[trigger] self.groups@[i]) by {
                assert(s0.group_wf(s0.groups@[i]));
            }
            self.lemma_kept_same_groups(&s0, cg_id);
            if s0.id_at_start() {
                assert(self.bytes().subrange(0, 64) =~= s0.bytes().subrange(0, 64));
            }
        }
        self.groups[gi].open = Some(OpenDataBlock { record_count: o.record_count + 1, ..o });
        proof {
            assert forall|i: int| 0 <= i < self.groups@.len() implies self.group_wf(#[trigger] self.groups@[i]) by {
                assert(s1.group_wf(s1.groups@[i]));
            }
            self.lemma_groups_like_but_open(&s1, gi as int);
            self.lemma_other_groups(&s1, gi as int);
            self.lemma_group_at(gi as int);
            s1.lemma_group_at(gi as int);
            s1.lemma_kept_others(&s0, cg_id);
            self.lemma_keeps_trans(&s1, &s0, cg_id);
        }
        Ok(())
    }

    /// Frame facts for a change of the open data block of group `i` alone.
    proof fn lemma_groups_like_but_open(&self, o: &Self, i: int)
        requires
            o.wf(),
            self.wf(),
            self.buf@ == o.buf@,
            self.block_positions@ == o.block_positions@,
            self.last_dg == o.last_dg,
            self.groups@.len() == o.groups@.len(),
            0 <= i < o.groups@.len(),
            forall|j: int| 0 <= j < o.groups@.len() && j != i ==> #[trigger] self.groups@[j] == o.groups@[j],
            self.groups@[i].cg == o.groups@[i].cg,
            self.groups@[i].dg == o.groups@[i].dg,
            self.groups@[i].open is Some,
            o.groups@[i].open is Some,
        ensures
            self.extends(o),
            forall|x: BlockId| #[trigger] self.is_open(x) == o.is_open(x),
    {
        assert forall|cg: BlockId| o.has_group(cg) implies #[trigger] self.has_group(cg) by {
            let j = choose|j: int| 0 <= j < o.groups@.len() && #[trigger] o.groups@[j].cg == cg;
            assert(self.groups@[j].cg == cg);
        }
        assert forall|x: BlockId| #[trigger] self.is_open(x) == o.is_open(x) by {
            if self.is_open(x) {
                let j = choose|j: int| 0 <= j < self.groups@.len() && #[trigger] self.groups@[j].cg == x && self.groups@[j].open is Some;
                assert(o.groups@[j].cg == x);
            }
            if o.is_open(x) {
                let j = choose|j: int| 0 <= j < o.groups@.len() && #[trigger] o.groups@[j].cg == x && o.groups@[j].open is Some;
                assert(self.groups@[j].cg == x);
            }
        }
    }

    /// Finishes the data block open for channel group `cg_id`: the block's
    /// length is written into its header, the data group links to it, and
    /// the channel group records the number of records (cycle count) and
    /// the bytes of each record after the record ID. Fails with
    /// [`Error::BlockLinkError`] when the group was not created by
    /// [`MdfWriter::add_channel_group`] and with
    /// [`Error::BlockSerializationError`] when no data block is open for
    /// it; nothing is written then.
    pub fn finish_data_block(&mut self, cg_id: BlockId) -> (r: Result<()>)
        requires
            old(self).wf(),
        ensures
            final(self).group_names_map() == old(self).group_names_map(),
            final(self).channel_units_map() == old(self).channel_units_map(),
            final(self).group_channel_names(cg_id) == old(self).group_channel_names(cg_id),
            final(self).cg_kept(old(self)),
            final(self).wf(),
            final(self).extends(old(self)),
            final(self).table() == old(self).table(),
            final(self).keeps_other_groups(old(self), cg_id),
            final(self).group_layout(cg_id) == old(self).group_layout(cg_id),
            final(self).group_record_bytes(cg_id) == old(self).group_record_bytes(cg_id),
            final(self).group_data_group(cg_id) == old(self).group_data_group(cg_id),
            !old(self).has_group(cg_id) ==> (r matches Err(e) && e is BlockLinkError),
            old(self).has_group(cg_id) && old(self).open_block(cg_id) is None ==> (r matches Err(e)
                && e is BlockSerializationError),
            r is Err ==> final(self).bytes() == old(self).bytes() && final(self).open_block(cg_id)
                == old(self).open_block(cg_id),
            old(self).open_block(cg_id) matches Some(o) ==> r is Ok && final(self).open_block(cg_id)
                is None && final(self).bytes() == finished_image(
                old(self).bytes(),
                o,
                old(self).position_of(old(self).group_data_group(cg_id))->0,
                old(self).position_of(cg_id)->0,
            ),
            (old(self).open_block(cg_id) matches Some(o) ==> o.pos >= 64) ==> final(self).keeps_start(old(self)),
    {
        let ghost s0 = *self;
        proof {
            self.lemma_kept_same_groups(self, cg_id);
        }
        let gi = match self.find_group(cg_id) {
            Some(i) => i,
            None => {
                return Err(Error::BlockLinkError(crate::text::concat_str("Channel group not found", "")));
            },
        };
        proof {
            self.lemma_group_at(gi as int);
        }
        let o = match self.groups[gi].open {
            Some(o) => o,
            None => {
                return Err(Error::BlockSerializationError(crate::text::concat_str("No data block is open for this channel group", "")));
            },
        };
        let dg = self.groups[gi].dg;
        let len = self.buf.len() as u64;
        proof {
            self.lemma_linkable_patchable(dg, 40, 8);
            self.lemma_linkable_patchable(cg_id, 80, 8);
            self.lemma_linkable_patchable(cg_id, 96, 4);
        }
        match self.update_u64(o.pos + 8, len - o.pos) {
            Ok(()) => {},
            Err(e) => {
                return Err(e);
            },
        }
        match self.update_block_u64(dg, 40, o.pos) {
            Ok(()) => {},
            Err(e) => {
                return Err(e);
            },
        }
        match self.update_block_u64(cg_id, 80, o.record_count) {
            Ok(()) => {},
            Err(e) => {
                return Err(e);
            },
        }
        let data_bytes: u32 = #[verifier::truncate] ((o.record_size - o.record_id_len as u64) as u32);
        match self.update_block_u32(cg_id, 96, data_bytes) {
            Ok(()) => {},
            Err(e) => {
                return Err(e);
            },
        }
        let ghost s1 = *self;
        proof {
            self.lemma_kept_same_groups(&s0, cg_id);
        }
        self.groups[gi].open = None;
        proof {
            assert forall|i: int| 0 <= i < self.groups@.len() implies self.group_wf(#[trigger] self.groups@[i]) by {
                assert(s1.group_wf(s1.groups@[i]));
            }
            self.lemma_closed_group(&s1, gi as int);
            self.lemma_other_groups(&s1, gi as int);
            self.lemma_group_at(gi as int);
            s1.lemma_group_at(gi as int);
            s1.lemma_kept_others(&s0, cg_id);
            self.lemma_keeps_trans(&s1, &s0, cg_id);
        }
        Ok(())
    }

    /// Frame facts for closing the data block of group `i`.
    proof fn lemma_closed_group(&self, o: &Self, i: int)
        requires
            o.wf(),
            self.wf(),
            self.buf@ == o.buf@,
            self.block_positions@ == o.block_positions@,
            self.groups@.len() == o.groups@.len(),
            0 <= i < o.groups@.len(),
            forall|j: int| 0 <= j < o.groups@.len() && j != i ==> #[trigger] self.groups@[j] == o.groups@[j],
            self.groups@[i].cg == o.groups@[i].cg,
        ensures
            self.extends(o),
    {
        assert forall|cg: BlockId| o.has_group(cg) implies #[trigger] self.has_group(cg) by {
            let j = choose|j: int| 0 <= j < o.groups@.len() && #[trigger] o.groups@[j].cg == cg;
            assert(self.groups@[j].cg == cg);
        }
    }
}

/// The image after finishing data block `o`: its length written into its
/// header, the data group at `dg_pos` linked to it, and the channel group
/// at `cg_pos` given its cycle count and its record's data bytes.
pub open spec fn finished_image(b: Seq<u8>, o: OpenDataBlock, dg_pos: u64, cg_pos: u64) -> Seq<u8> {
    let b1 = splice(b, o.pos + 8, spec_u64_to_le_bytes((b.len() - o.pos) as u64));
    let b2 = splice(b1, dg_pos + 40, spec_u64_to_le_bytes(o.pos));
    let b3 = splice(b2, cg_pos + 80, spec_u64_to_le_bytes(o.record_count));
    splice(b3, cg_pos + 96, spec_u32_to_le_bytes((o.record_size - o.record_id_len) as u32))
}

} // verus!
