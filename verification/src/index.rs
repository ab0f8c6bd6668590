//! A lightweight index of an MDF file: where each channel group's data
//! blocks lie and how each channel is laid out in the records, so that a
//! channel's bytes can be located and read without parsing the whole file.
use crate::blocks::common::{data_type_of_code, u32_at, u64_at, BlockHeader, BlockParse};
use crate::blocks::conversion::ConversionType;
use crate::blocks::data_block::{dl_data_links, dl_id, dl_min_len, dt_block_id, dv_block_id};
use crate::blocks::text_block::{block_text, md_id, tx_id};
use crate::blocks::{
    ChannelBlock, ChannelGroupBlock, ConversionBlock, DataGroupBlock, DataListBlock, DataType, HeaderBlock,
    IdentificationBlock, TextBlock,
};
use crate::blocks::identification_block::{accepted_file_id, block_version_spec};
use crate::error::{Error, Result};
use crate::text::{concat3, lossy_utf8, str_eq};
use crate::writer::data::is_byte_data;
use vstd::prelude::*;
use vstd::string::StringExecFns;

verus! {

/// The location and size of a data block in the file.
pub struct DataBlockInfo {
    /// File offset where the data block starts
    pub file_offset: u64,
    /// Size of the data block in bytes, header included
    pub size: u64,
    /// Whether this is a compressed block (`##DZ`)
    pub is_compressed: bool,
}

/// Channel metadata needed for decoding values.
pub struct IndexedChannel {
    /// Channel name
    pub name: Option<String>,
    /// Physical unit
    pub unit: Option<String>,
    /// Data type of the channel
    pub data_type: DataType,
    /// Byte offset within each record (after the record ID)
    pub byte_offset: u32,
    /// Bit offset within the first byte
    pub bit_offset: u8,
    /// Number of bits of the value
    pub bit_count: u32,
    /// Channel type (0 data, 1 variable length, 2 master, ...)
    pub channel_type: u8,
    /// Channel flags (including the invalidation bit flags)
    pub flags: u32,
    /// Position of the invalidation bit within the invalidation bytes
    pub pos_invalidation_bit: u32,
    /// The channel's conversion, if any
    pub conversion: Option<ConversionBlock>,
    /// For variable-length channels: the address of the signal data
    pub vlsd_data_address: Option<u64>,
}

/// Channel group metadata and record layout.
pub struct IndexedChannelGroup {
    /// Group name
    pub name: Option<String>,
    /// Comment
    pub comment: Option<String>,
    /// Size of the record ID in bytes
    pub record_id_len: u8,
    /// Size of each record in bytes, without record ID and invalidation bytes
    pub record_size: u32,
    /// Number of invalidation bytes per record
    pub invalidation_bytes: u32,
    /// Number of records in this group
    pub record_count: u64,
    /// Channels of this group
    pub channels: Vec<IndexedChannel>,
    /// Data blocks of this group, in order
    pub data_blocks: Vec<DataBlockInfo>,
}

/// An index of a whole MDF file.
pub struct MdfIndex {
    /// File size, for validation
    pub file_size: u64,
    /// Channel groups of the file
    pub channel_groups: Vec<IndexedChannelGroup>,
}

/// Whether an optional name is `s`.
pub open spec fn has_name(name: Option<String>, s: Seq<char>) -> bool {
    name matches Some(n) && n@ == s
}

/// Whether an optional name is `s`.
fn name_is(name: &Option<String>, s: &str) -> (r: bool)
    ensures
        r == has_name(*name, s@),
{
    match name {
        Some(n) => str_eq(n.as_str(), s),
        None => false,
    }
}

/// The name shown for something without a name.
pub open spec fn unnamed() -> Seq<char> {
    seq!['<', 'u', 'n', 'n', 'a', 'm', 'e', 'd', '>']
}

/// An optional name, or `<unnamed>`.
pub open spec fn shown_name(name: Option<String>) -> Seq<char> {
    match name {
        Some(n) => n@,
        None => unnamed(),
    }
}

fn shown_name_of(name: &Option<String>) -> (r: &str)
    ensures
        r@ == shown_name(*name),
{
    match name {
        Some(n) => n.as_str(),
        None => {
            proof {
                reveal_strlit("<unnamed>");
            }
            "<unnamed>"
        },
    }
}

impl MdfIndex {
    /// Whether channel `c` of group `g` exists and is named `s`.
    pub open spec fn channel_named(&self, g: int, c: int, s: Seq<char>) -> bool {
        &&& 0 <= g < self.channel_groups@.len()
        &&& 0 <= c < self.channel_groups@[g].channels@.len()
        &&& has_name(self.channel_groups@[g].channels@[c].name, s)
    }

    /// Whether `(g, c)` comes before `(g2, c2)` in group-then-channel order.
    pub open spec fn before(g: int, c: int, g2: int, c2: int) -> bool {
        g < g2 || (g == g2 && c < c2)
    }

    /// The channel at `channel_index` of the group at `group_index`.
    pub fn get_channel_info(&self, group_index: usize, channel_index: usize) -> (r: Option<&IndexedChannel>)
        ensures
            r is Some <==> group_index < self.channel_groups@.len() && channel_index
                < self.channel_groups@[group_index as int].channels@.len(),
            r matches Some(ch) ==> *ch == self.channel_groups@[group_index as int].channels@[channel_index as int],
    {
        if group_index >= self.channel_groups.len() {
            return None;
        }
        let group = &self.channel_groups[group_index];
        if channel_index >= group.channels.len() {
            return None;
        }
        Some(&group.channels[channel_index])
    }

    /// Every channel group as (index, name or `<unnamed>`, number of
    /// channels).
    pub fn list_channel_groups(&self) -> (r: Vec<(usize, &str, usize)>)
        ensures
            r@.len() == self.channel_groups@.len(),
            forall|i: int|
                0 <= i < r@.len() ==> (#[trigger] r@[i]).0 == i && r@[i].1@ == shown_name(
                    self.channel_groups@[i].name,
                ) && r@[i].2 == self.channel_groups@[i].channels@.len(),
    {
        let mut out: Vec<(usize, &str, usize)> = Vec::new();
        let mut i: usize = 0;
        while i < self.channel_groups.len()
            invariant
                i <= self.channel_groups@.len(),
                out@.len() == i,
                forall|k: int|
                    0 <= k < i ==> (#[trigger] out@[k]).0 == k && out@[k].1@ == shown_name(
                        self.channel_groups@[k].name,
                    ) && out@[k].2 == self.channel_groups@[k].channels@.len(),
            decreases self.channel_groups@.len() - i,
        {
            let g = &self.channel_groups[i];
            out.push((i, shown_name_of(&g.name), g.channels.len()));
            i = i + 1;
        }
        out
    }

    /// Every channel of the group at `group_index` as (index, name or
    /// `<unnamed>`, data type); `None` when there is no such group.
    pub fn list_channels(&self, group_index: usize) -> (r: Option<Vec<(usize, &str, &DataType)>>)
        ensures
            r is Some <==> group_index < self.channel_groups@.len(),
            r matches Some(v) ==> v@.len() == self.channel_groups@[group_index as int].channels@.len()
                && forall|i: int|
                0 <= i < v@.len() ==> (#[trigger] v@[i]).0 == i && v@[i].1@ == shown_name(
                    self.channel_groups@[group_index as int].channels@[i].name,
                ) && *v@[i].2 == self.channel_groups@[group_index as int].channels@[i].data_type,
    {
        if group_index >= self.channel_groups.len() {
            return None;
        }
        let group = &self.channel_groups[group_index];
        let mut out: Vec<(usize, &str, &DataType)> = Vec::new();
        let mut i: usize = 0;
        while i < group.channels.len()
            invariant
                group == &self.channel_groups@[group_index as int],
                i <= group.channels@.len(),
                out@.len() == i,
                forall|k: int|
                    0 <= k < i ==> (#[trigger] out@[k]).0 == k && out@[k].1@ == shown_name(
                        group.channels@[k].name,
                    ) && *out@[k].2 == group.channels@[k].data_type,
            decreases group.channels@.len() - i,
        {
            let ch = &group.channels[i];
            out.push((i, shown_name_of(&ch.name), &ch.data_type));
            i = i + 1;
        }
        Some(out)
    }

    /// The index of the first channel group named `group_name`.
    pub fn find_channel_group_by_name(&self, group_name: &str) -> (r: Option<usize>)
        ensures
            r matches Some(i) ==> i < self.channel_groups@.len() && has_name(
                self.channel_groups@[i as int].name,
                group_name@,
            ) && forall|j: int| 0 <= j < i ==> !has_name(#[trigger] self.channel_groups@[j].name, group_name@),
            r is None ==> forall|j: int|
                0 <= j < self.channel_groups@.len() ==> !has_name(#[trigger] self.channel_groups@[j].name, group_name@),
    {
        let mut i: usize = 0;
        while i < self.channel_groups.len()
            invariant
                i <= self.channel_groups@.len(),
                forall|j: int| 0 <= j < i ==> !has_name(#[trigger] self.channel_groups@[j].name, group_name@),
            decreases self.channel_groups@.len() - i,
        {
            if name_is(&self.channel_groups[i].name, group_name) {
                return Some(i);
            }
            i = i + 1;
        }
        None
    }

    /// The index of the first channel named `channel_name` in the group at
    /// `group_index`; `None` when there is no such group or channel.
    pub fn find_channel_by_name(&self, group_index: usize, channel_name: &str) -> (r: Option<usize>)
        ensures
            r matches Some(c) ==> self.channel_named(group_index as int, c as int, channel_name@)
                && forall|j: int| 0 <= j < c ==> !self.channel_named(group_index as int, j, channel_name@),
            r is None ==> forall|j: int| !self.channel_named(group_index as int, j, channel_name@),
    {
        if group_index >= self.channel_groups.len() {
            return None;
        }
        let group = &self.channel_groups[group_index];
        let mut i: usize = 0;
        while i < group.channels.len()
            invariant
                group == &self.channel_groups@[group_index as int],
                group_index < self.channel_groups@.len(),
                i <= group.channels@.len(),
                forall|j: int| 0 <= j < i ==> !self.channel_named(group_index as int, j, channel_name@),
            decreases group.channels@.len() - i,
        {
            if name_is(&group.channels[i].name, channel_name) {
                return Some(i);
            }
            i = i + 1;
        }
        None
    }

    /// The first channel named `channel_name`, groups in order and
    /// channels in order within each, as (group index, channel index).
    pub fn find_channel_by_name_global(&self, channel_name: &str) -> (r: Option<(usize, usize)>)
        ensures
            r matches Some((g, c)) ==> self.channel_named(g as int, c as int, channel_name@)
                && forall|g2: int, c2: int|
                MdfIndex::before(g2, c2, g as int, c as int) ==> !#[trigger] self.channel_named(
                    g2,
                    c2,
                    channel_name@,
                ),
            r is None ==> forall|g2: int, c2: int| !#[trigger] self.channel_named(g2, c2, channel_name@),
    {
        let mut g: usize = 0;
        while g < self.channel_groups.len()
            invariant
                g <= self.channel_groups@.len(),
                forall|g2: int, c2: int| g2 < g ==> !#[trigger] self.channel_named(g2, c2, channel_name@),
            decreases self.channel_groups@.len() - g,
        {
            let group = &self.channel_groups[g];
            let mut c: usize = 0;
            while c < group.channels.len()
                invariant
                    group == &self.channel_groups@[g as int],
                    g < self.channel_groups@.len(),
                    c <= group.channels@.len(),
                    forall|g2: int, c2: int| g2 < g ==> !#[trigger] self.channel_named(g2, c2, channel_name@),
                    forall|c2: int| c2 < c ==> !#[trigger] self.channel_named(g as int, c2, channel_name@),
                decreases group.channels@.len() - c,
            {
                if name_is(&group.channels[c].name, channel_name) {
                    return Some((g, c));
                }
                c = c + 1;
            }
            g = g + 1;
        }
        None
    }

    /// Every channel named `channel_name`, as (group index, channel
    /// index), groups in order and channels in order within each.
    pub fn find_all_channels_by_name(&self, channel_name: &str) -> (r: Vec<(usize, usize)>)
        ensures
            forall|i: int|
                0 <= i < r@.len() ==> self.channel_named(
                    (#[trigger] r@[i]).0 as int,
                    r@[i].1 as int,
                    channel_name@,
                ),
            forall|i: int, j: int|
                0 <= i < j < r@.len() ==> MdfIndex::before(
                    (#[trigger] r@[i]).0 as int,
                    r@[i].1 as int,
                    (#[trigger] r@[j]).0 as int,
                    r@[j].1 as int,
                ),
            forall|g: int, c: int|
                #[trigger] self.channel_named(g, c, channel_name@) ==> exists|i: int|
                    0 <= i < r@.len() && r@[i] == (g as usize, c as usize),
    {
        let mut out: Vec<(usize, usize)> = Vec::new();
        let mut g: usize = 0;
        while g < self.channel_groups.len()
            invariant
                g <= self.channel_groups@.len(),
                forall|i: int|
                    0 <= i < out@.len() ==> self.channel_named(
                        (#[trigger] out@[i]).0 as int,
                        out@[i].1 as int,
                        channel_name@,
                    ) && out@[i].0 < g,
                forall|i: int, j: int|
                    0 <= i < j < out@.len() ==> MdfIndex::before(
                        (#[trigger] out@[i]).0 as int,
                        out@[i].1 as int,
                        (#[trigger] out@[j]).0 as int,
                        out@[j].1 as int,
                    ),
                forall|g2: int, c2: int|
                    g2 < g && #[trigger] self.channel_named(g2, c2, channel_name@) ==> exists|i: int|
                        0 <= i < out@.len() && out@[i] == (g2 as usize, c2 as usize),
            decreases self.channel_groups@.len() - g,
        {
            let group = &self.channel_groups[g];
            let ghost before_group = out@;
            let mut c: usize = 0;
            while c < group.channels.len()
                invariant
                    group == &self.channel_groups@[g as int],
                    g < self.channel_groups@.len(),
                    c <= group.channels@.len(),
                    out@.len() >= before_group.len(),
                    out@.subrange(0, before_group.len() as int) == before_group,
                    forall|i: int| 0 <= i < before_group.len() ==> (#[trigger] before_group[i]).0 < g,
                    forall|i: int|
                        before_group.len() <= i < out@.len() ==> (#[trigger] out@[i]).0 == g && out@[i].1 < c,
                    forall|i: int|
                        0 <= i < out@.len() ==> self.channel_named(
                            (#[trigger] out@[i]).0 as int,
                            out@[i].1 as int,
                            channel_name@,
                        ),
                    forall|i: int, j: int|
                        0 <= i < j < out@.len() ==> MdfIndex::before(
                            (#[trigger] out@[i]).0 as int,
                            out@[i].1 as int,
                            (#[trigger] out@[j]).0 as int,
                            out@[j].1 as int,
                        ),
                    forall|g2: int, c2: int|
                        g2 < g && #[trigger] self.channel_named(g2, c2, channel_name@) ==> exists|i: int|
                            0 <= i < out@.len() && out@[i] == (g2 as usize, c2 as usize),
                    forall|c2: int|
                        c2 < c && #[trigger] self.channel_named(g as int, c2, channel_name@) ==> exists|i: int|
                            0 <= i < out@.len() && out@[i] == (g, c2 as usize),
                decreases group.channels@.len() - c,
            {
                if name_is(&group.channels[c].name, channel_name) {
                    let ghost prev = out@;
                    out.push((g, c));
                    proof {
                        assert forall|g2: int, c2: int|
                            g2 < g && #[trigger] self.channel_named(g2, c2, channel_name@) implies exists|i: int|
                                0 <= i < out@.len() && out@[i] == (g2 as usize, c2 as usize) by {
                            let i = choose|i: int| 0 <= i < prev.len() && prev[i] == (g2 as usize, c2 as usize);
                            assert(out@[i] == prev[i]);
                        }
                        assert forall|c2: int|
                            c2 < c + 1 && #[trigger] self.channel_named(g as int, c2, channel_name@) implies exists|i: int|
                                0 <= i < out@.len() && out@[i] == (g, c2 as usize) by {
                            if c2 == c {
                                assert(out@[prev.len() as int] == (g, c));
                            } else {
                                let i = choose|i: int| 0 <= i < prev.len() && prev[i] == (g, c2 as usize);
                                assert(out@[i] == prev[i]);
                            }
                        }
                        assert(out@.subrange(0, before_group.len() as int) =~= prev.subrange(0, before_group.len() as int));
                        assert forall|i: int, j: int|
                            0 <= i < j < out@.len() implies MdfIndex::before(
                                (#[trigger] out@[i]).0 as int,
                                out@[i].1 as int,
                                (#[trigger] out@[j]).0 as int,
                                out@[j].1 as int,
                            ) by {
                            if j == prev.len() {
                                assert(out@[i] == prev[i]);
                                if i < before_group.len() {
                                    assert(prev.subrange(0, before_group.len() as int)[i] == before_group[i]);
                                }
                            } else {
                                assert(out@[i] == prev[i]);
                                assert(out@[j] == prev[j]);
                            }
                        }
                    }
                }
                c = c + 1;
            }
            proof {
                assert forall|g2: int, c2: int|
                    g2 < g + 1 && #[trigger] self.channel_named(g2, c2, channel_name@) implies exists|i: int|
                        0 <= i < out@.len() && out@[i] == (g2 as usize, c2 as usize) by {
                    if g2 == g {
                        assert(c2 < c);
                    }
                }
                assert forall|i: int| 0 <= i < out@.len() implies (#[trigger] out@[i]).0 < g + 1 by {
                    if i < before_group.len() {
                        assert(out@[i] == before_group[i]);
                    }
                }
            }
            g = g + 1;
        }
        out
    }

    /// Channel information by name: the first channel so named (see
    /// [`MdfIndex::find_channel_by_name_global`]) with its position.
    pub fn get_channel_info_by_name(&self, channel_name: &str) -> (r: Option<(usize, usize, &IndexedChannel)>)
        ensures
            r is Some <==> exists|g: int, c: int| self.channel_named(g, c, channel_name@),
            r matches Some((g, c, ch)) ==> self.channel_named(g as int, c as int, channel_name@)
                && *ch == self.channel_groups@[g as int].channels@[c as int] && forall|g2: int, c2: int|
                MdfIndex::before(g2, c2, g as int, c as int) ==> !#[trigger] self.channel_named(
                    g2,
                    c2,
                    channel_name@,
                ),
    {
        let (g, c) = match self.find_channel_by_name_global(channel_name) {
            Some(p) => p,
            None => {
                return None;
            },
        };
        match self.get_channel_info(g, c) {
            Some(ch) => Some((g, c, ch)),
            None => None,
        }
    }
}

/// The number of bytes a channel's value spans in a record: the whole
/// bytes of its bits for text and byte data, otherwise the bytes its bits
/// touch (at least one).
pub open spec fn channel_bytes(ch: IndexedChannel) -> int {
    if is_byte_data(ch.data_type) {
        (ch.bit_count / 8) as int
    } else {
        let n = (ch.bit_offset + ch.bit_count + 7) / 8;
        if n > 1 {
            n
        } else {
            1
        }
    }
}

/// Law: a numeric channel's values are read as the fewest whole bytes
/// that hold every one of its bits (from `bit_offset` on, `bit_count` of
/// them), and at least one byte: so every byte that holds a bit of the
/// channel in a record lies within the bytes counted for it.
pub proof fn lemma_channel_bytes_cover_bits(ch: IndexedChannel)
    requires
        !is_byte_data(ch.data_type),
    ensures
        channel_bytes(ch) >= 1,
        8 * channel_bytes(ch) >= ch.bit_offset + ch.bit_count,
        channel_bytes(ch) == 1 || 8 * (channel_bytes(ch) - 1) < ch.bit_offset + ch.bit_count,
        forall|bit: int|
            ch.bit_offset <= bit < ch.bit_offset + ch.bit_count ==> 0 <= #[trigger] (bit / 8) < channel_bytes(ch),
{
}

/// The size of a whole record: record ID, data bytes and invalidation
/// bytes.
pub open spec fn full_record_size(g: IndexedChannelGroup) -> int {
    g.record_id_len + g.record_size + g.invalidation_bytes
}

/// The larger of two integers.
pub open spec fn max_int(a: int, b: int) -> int {
    if a > b {
        a
    } else {
        b
    }
}

/// The smaller of two integers.
pub open spec fn min_int(a: int, b: int) -> int {
    if a < b {
        a
    } else {
        b
    }
}

/// The byte ranges (offset, length) that hold a channel's values for the
/// records `start..end`, reading the data blocks from `i` on, of which the
/// blocks before `i` held `processed` records. Each block contributes one
/// range, from the channel's first byte in the first wanted record it
/// holds to its last byte in the last one (records are `rs` bytes, the
/// channel sits `off` bytes into each and spans `cb` bytes). Reading stops
/// at the block that reaches `end`. `None` when a compressed block is met
/// first.
pub open spec fn ranges_from(blocks: Seq<DataBlockInfo>, i: int, processed: int, start: int, end: int, rs: int, off: int, cb: int) -> Option<Seq<(int, int)>>
    decreases blocks.len() - i,
{
    if i < 0 || i >= blocks.len() {
        Some(Seq::empty())
    } else {
        let b = blocks[i];
        if b.is_compressed {
            None
        } else {
            let be = processed + (b.size - 24) / rs;
            let ns = max_int(start, processed);
            let ne = min_int(end, be);
            let here = if ns < ne {
                seq![(b.file_offset + 24 + (ns - processed) * rs + off, (ne - ns - 1) * rs + cb)]
            } else {
                Seq::empty()
            };
            if be >= end {
                Some(here)
            } else {
                match ranges_from(blocks, i + 1, be, start, end, rs, off, cb) {
                    Some(rest) => Some(here + rest),
                    None => None,
                }
            }
        }
    }
}

/// Where record `r` starts in the file: in the first block from `i` on
/// that holds it, blocks before `i` having held `processed` records of
/// `rs` bytes each.
pub open spec fn record_start_in(blocks: Seq<DataBlockInfo>, i: int, processed: int, r: int, rs: int) -> Option<int>
    decreases blocks.len() - i,
{
    if i < 0 || i >= blocks.len() {
        None
    } else {
        let b = blocks[i];
        let be = processed + (b.size - 24) / rs;
        if r < be {
            Some(b.file_offset + 24 + (r - processed) * rs)
        } else {
            record_start_in(blocks, i + 1, be, r, rs)
        }
    }
}

/// Whether byte `x` of the file lies within one of the ranges `v`.
pub open spec fn in_ranges(v: Seq<(int, int)>, x: int) -> bool {
    exists|k: int| 0 <= k < v.len() && (#[trigger] v[k]).0 <= x < v[k].0 + v[k].1
}

/// Law: the byte ranges cover the channel's bytes of every requested
/// record: for each record `r` from `start` up to `end` that the blocks
/// hold, each of the `cb` bytes from `off` on in that record lies within a
/// returned range.
pub proof fn lemma_ranges_cover_records(
    blocks: Seq<DataBlockInfo>,
    i: int,
    processed: int,
    start: int,
    end: int,
    rs: int,
    off: int,
    cb: int,
    r: int,
    j: int,
)
    requires
        rs > 0,
        ranges_from(blocks, i, processed, start, end, rs, off, cb) is Some,
        start <= r < end,
        processed <= r,
        record_start_in(blocks, i, processed, r, rs) is Some,
        0 <= j < cb,
    ensures
        in_ranges(
            ranges_from(blocks, i, processed, start, end, rs, off, cb)->0,
            record_start_in(blocks, i, processed, r, rs)->0 + off + j,
        ),
    decreases blocks.len() - i,
{
    let b = blocks[i];
    let be = processed + (b.size - 24) / rs;
    let ns = max_int(start, processed);
    let ne = min_int(end, be);
    let v = ranges_from(blocks, i, processed, start, end, rs, off, cb)->0;
    let x = record_start_in(blocks, i, processed, r, rs)->0 + off + j;
    if r < be {
        assert(ns <= r < ne);
        let here = seq![(b.file_offset + 24 + (ns - processed) * rs + off, (ne - ns - 1) * rs + cb)];
        assert((ns - processed) * rs <= (r - processed) * rs) by (nonlinear_arith)
            requires
                ns <= r,
                rs > 0,
        ;
        assert((r - processed) * rs - (ns - processed) * rs == (r - ns) * rs) by (nonlinear_arith);
        assert((r - ns) * rs <= (ne - ns - 1) * rs) by (nonlinear_arith)
            requires
                r <= ne - 1,
                rs > 0,
        ;
        assert(v[0] == here[0]);
        assert(v[0].0 <= x < v[0].0 + v[0].1);
    } else {
        assert(be < end);
        let here = if ns < ne {
            seq![(b.file_offset + 24 + (ns - processed) * rs + off, (ne - ns - 1) * rs + cb)]
        } else {
            Seq::<(int, int)>::empty()
        };
        let rest = ranges_from(blocks, i + 1, be, start, end, rs, off, cb)->0;
        lemma_ranges_cover_records(blocks, i + 1, be, start, end, rs, off, cb, r, j);
        let k = choose|k: int| 0 <= k < rest.len() && (#[trigger] rest[k]).0 <= x < rest[k].0 + rest[k].1;
        assert(v == here + rest);
        assert(v[here.len() + k] == rest[k]);
    }
}

/// Law: the byte ranges are no wider than needed: each one starts at the
/// channel's first byte in a requested record and ends right after its
/// last byte in a requested record no earlier than that one.
pub proof fn lemma_ranges_tight(
    blocks: Seq<DataBlockInfo>,
    i: int,
    processed: int,
    start: int,
    end: int,
    rs: int,
    off: int,
    cb: int,
    k: int,
)
    requires
        rs > 0,
        ranges_from(blocks, i, processed, start, end, rs, off, cb) is Some,
        0 <= k < ranges_from(blocks, i, processed, start, end, rs, off, cb)->0.len(),
        forall|m: int| i <= m < blocks.len() ==> #[trigger] blocks[m].size >= 24,
    ensures
        ({
            let v = ranges_from(blocks, i, processed, start, end, rs, off, cb)->0;
            exists|r1: int, r2: int|
                start <= r1 <= r2 < end && processed <= r1 && #[trigger] record_start_in(blocks, i, processed, r1, rs)
                    == Some(v[k].0 - off) && #[trigger] record_start_in(blocks, i, processed, r2, rs) == Some(
                    v[k].0 + v[k].1 - off - cb,
                )
        }),
    decreases blocks.len() - i,
{
    let b = blocks[i];
    let be = processed + (b.size - 24) / rs;
    let ns = max_int(start, processed);
    let ne = min_int(end, be);
    let v = ranges_from(blocks, i, processed, start, end, rs, off, cb)->0;
    let here = if ns < ne {
        seq![(b.file_offset + 24 + (ns - processed) * rs + off, (ne - ns - 1) * rs + cb)]
    } else {
        Seq::<(int, int)>::empty()
    };
    if k < here.len() {
        assert(v[k] == here[0]);
        let r1 = ns;
        let r2 = ne - 1;
        assert((ns - processed) * rs + (ne - ns - 1) * rs == (ne - 1 - processed) * rs) by (nonlinear_arith);
        assert(record_start_in(blocks, i, processed, r1, rs) == Some(v[k].0 - off));
        assert(record_start_in(blocks, i, processed, r2, rs) == Some(v[k].0 + v[k].1 - off - cb));
    } else {
        assert(be < end);
        assert((b.size - 24) / rs >= 0) by (nonlinear_arith)
            requires
                b.size >= 24,
                rs > 0,
        ;
        let rest = ranges_from(blocks, i + 1, be, start, end, rs, off, cb)->0;
        assert(v == here + rest);
        let k2 = k - here.len();
        assert(v[k] == rest[k2]);
        lemma_ranges_tight(blocks, i + 1, be, start, end, rs, off, cb, k2);
        let (r1, r2) = choose|r1: int, r2: int|
            start <= r1 <= r2 < end && be <= r1 && #[trigger] record_start_in(blocks, i + 1, be, r1, rs)
                == Some(rest[k2].0 - off) && #[trigger] record_start_in(blocks, i + 1, be, r2, rs) == Some(
                rest[k2].0 + rest[k2].1 - off - cb,
            );
        assert(record_start_in(blocks, i, processed, r1, rs) == record_start_in(blocks, i + 1, be, r1, rs));
        assert(record_start_in(blocks, i, processed, r2, rs) == record_start_in(blocks, i + 1, be, r2, rs));
    }
}

/// Whether computing [`ranges_from`] in 64-bit arithmetic neither
/// overflows nor underflows: each block read holds its header, and every
/// offset, record count and range fits.
pub open spec fn ranges_fit(blocks: Seq<DataBlockInfo>, i: int, processed: int, start: int, end: int, rs: int, off: int, cb: int) -> bool
    decreases blocks.len() - i,
{
    if i < 0 || i >= blocks.len() {
        true
    } else {
        let b = blocks[i];
        if b.is_compressed {
            true
        } else {
            let be = processed + (b.size - 24) / rs;
            let ns = max_int(start, processed);
            let ne = min_int(end, be);
            &&& b.size >= 24
            &&& b.file_offset + 24 <= u64::MAX
            &&& be <= u64::MAX
            &&& ns < ne ==> b.file_offset + 24 + (ne - 1 - processed) * rs + off + cb <= u64::MAX
                && (ne - ns - 1) * rs + cb >= 1
            &&& be < end ==> ranges_fit(blocks, i + 1, be, start, end, rs, off, cb)
        }
    }
}

impl MdfIndex {
    /// The byte ranges of channel `c` of group `g` for the records
    /// `start..start + count`; see [`ranges_from`].
    pub open spec fn channel_ranges(&self, g: int, c: int, start: int, count: int) -> Option<Seq<(int, int)>> {
        let grp = self.channel_groups@[g];
        let ch = grp.channels@[c];
        ranges_from(
            grp.data_blocks@,
            0,
            0,
            start,
            start + count,
            full_record_size(grp),
            grp.record_id_len + ch.byte_offset,
            channel_bytes(ch),
        )
    }

    /// Whether [`MdfIndex::channel_ranges`] can be computed in 64-bit
    /// arithmetic.
    pub open spec fn channel_ranges_fit(&self, g: int, c: int, start: int, count: int) -> bool {
        let grp = self.channel_groups@[g];
        let ch = grp.channels@[c];
        &&& full_record_size(grp) > 0
        &&& ranges_fit(
            grp.data_blocks@,
            0,
            0,
            start,
            start + count,
            full_record_size(grp),
            grp.record_id_len + ch.byte_offset,
            channel_bytes(ch),
        )
    }

    /// Law: the byte ranges of a numeric channel for records `start` to
    /// `start + count` hold every byte that holds a bit of the channel in
    /// any of those records: the byte of bit `bit` (counted from the
    /// channel's first byte) of record `r` lies within a returned range.
    pub proof fn lemma_channel_ranges_cover_bits(&self, g: int, c: int, start: int, count: int, r: int, bit: int)
        requires
            0 <= g < self.channel_groups@.len(),
            0 <= c < self.channel_groups@[g].channels@.len(),
            !is_byte_data(self.channel_groups@[g].channels@[c].data_type),
            full_record_size(self.channel_groups@[g]) > 0,
            self.channel_ranges(g, c, start, count) is Some,
            start <= r < start + count,
            0 <= r,
            record_start_in(self.channel_groups@[g].data_blocks@, 0, 0, r, full_record_size(self.channel_groups@[g]))
                is Some,
            self.channel_groups@[g].channels@[c].bit_offset <= bit < self.channel_groups@[g].channels@[c].bit_offset
                + self.channel_groups@[g].channels@[c].bit_count,
        ensures
            in_ranges(
                self.channel_ranges(g, c, start, count)->0,
                record_start_in(self.channel_groups@[g].data_blocks@, 0, 0, r, full_record_size(self.channel_groups@[g]))->0
                    + self.channel_groups@[g].record_id_len + self.channel_groups@[g].channels@[c].byte_offset + bit / 8,
            ),
    {
        let grp = self.channel_groups@[g];
        let ch = grp.channels@[c];
        lemma_channel_bytes_cover_bits(ch);
        lemma_ranges_cover_records(
            grp.data_blocks@,
            0,
            0,
            start,
            start + count,
            full_record_size(grp),
            grp.record_id_len + ch.byte_offset,
            channel_bytes(ch),
            r,
            bit / 8,
        );
    }

    /// Whether channel `c` of group `g` stores variable-length data
    /// elsewhere, which byte ranges do not cover.
    pub open spec fn is_vlsd(&self, g: int, c: int) -> bool {
        let ch = self.channel_groups@[g].channels@[c];
        ch.channel_type == 1 && ch.vlsd_data_address is Some
    }
}

/// Whether `r` holds the ranges `s`.
pub open spec fn ranges_match(r: Seq<(u64, u64)>, s: Seq<(int, int)>) -> bool {
    &&& r.len() == s.len()
    &&& forall|k: int| 0 <= k < r.len() ==> (#[trigger] r[k]).0 == s[k].0 && r[k].1 == s[k].1
}

/// Computes [`ranges_from`] from block `0` on.
fn calculate_channel_byte_ranges_for_records(
    group: &IndexedChannelGroup,
    channel: &IndexedChannel,
    start_record: u64,
    record_count: u64,
) -> (r: Result<Vec<(u64, u64)>>)
    requires
        full_record_size(*group) > 0,
        start_record + record_count <= u64::MAX,
        ranges_fit(
            group.data_blocks@,
            0,
            0,
            start_record as int,
            start_record + record_count,
            full_record_size(*group),
            group.record_id_len + channel.byte_offset,
            channel_bytes(*channel),
        ),
    ensures
        ({
            let s = ranges_from(
                group.data_blocks@,
                0,
                0,
                start_record as int,
                start_record + record_count,
                full_record_size(*group),
                group.record_id_len + channel.byte_offset,
                channel_bytes(*channel),
            );
            &&& s is None ==> (r matches Err(e) && e is BlockSerializationError)
            &&& s matches Some(v) ==> (r matches Ok(out) && ranges_match(out@, v))
        }),
{
    let record_size: u64 = group.record_id_len as u64 + group.record_size as u64
        + group.invalidation_bytes as u64;
    let offset: u64 = group.record_id_len as u64 + channel.byte_offset as u64;
    let numeric = match channel.data_type {
        DataType::StringLatin1 | DataType::StringUtf8 | DataType::StringUtf16LE
        | DataType::StringUtf16BE | DataType::ByteArray | DataType::MimeSample
        | DataType::MimeStream => false,
        _ => true,
    };
    let bytes_per_record: u64 = if !numeric {
        channel.bit_count as u64 / 8
    } else {
        let n = (channel.bit_offset as u64 + channel.bit_count as u64 + 7) / 8;
        if n > 1 {
            n
        } else {
            1
        }
    };
    let end: u64 = start_record + record_count;
    let ghost rs = record_size as int;
    let ghost off = offset as int;
    let ghost cb = bytes_per_record as int;
    let ghost total = ranges_from(group.data_blocks@, 0, 0, start_record as int, end as int, rs, off, cb);
    let mut ranges: Vec<(u64, u64)> = Vec::new();
    let mut processed: u64 = 0;
    let mut i: usize = 0;
    while i < group.data_blocks.len()
        invariant
            i <= group.data_blocks@.len(),
            rs == full_record_size(*group),
            rs > 0,
            rs == record_size,
            off == offset,
            cb == bytes_per_record,
            off == group.record_id_len + channel.byte_offset,
            cb == channel_bytes(*channel),
            end == start_record + record_count,
            total == ranges_from(group.data_blocks@, 0, 0, start_record as int, end as int, rs, off, cb),
            ranges_fit(group.data_blocks@, i as int, processed as int, start_record as int, end as int, rs, off, cb),
            total == match ranges_from(group.data_blocks@, i as int, processed as int, start_record as int, end as int, rs, off, cb) {
                Some(rest) => Some(ranges@.map_values(|p: (u64, u64)| (p.0 as int, p.1 as int)) + rest),
                None => None::<Seq<(int, int)>>,
            },
        decreases group.data_blocks@.len() - i,
    {
        let block = &group.data_blocks[i];
        if block.is_compressed {
            return Err(Error::BlockSerializationError(String::from_str("Compressed blocks not supported for byte range calculation")));
        }
        let data_start = block.file_offset + 24;
        let data_size = block.size - 24;
        let in_block = data_size / record_size;
        let block_start = processed;
        let block_end = processed + in_block;
        let need_start = if start_record > block_start { start_record } else { block_start };
        let need_end = if end < block_end { end } else { block_end };
        let ghost prev = ranges@;
        if need_start < need_end {
            let first_rec = need_start - block_start;
            let last_rec = need_end - block_start - 1;
            proof {
                assert(first_rec * record_size <= last_rec * record_size) by (nonlinear_arith)
                    requires first_rec <= last_rec;
                assert(data_start + last_rec * rs + off + cb <= u64::MAX);
                assert(last_rec * rs >= 0) by (nonlinear_arith)
                    requires rs > 0;
            }
            let first_byte = data_start + first_rec * record_size + offset;
            let last_byte = data_start + last_rec * record_size + offset + bytes_per_record - 1;
            proof {
                assert((last_rec - first_rec) * rs == last_rec * rs - first_rec * rs) by (nonlinear_arith);
            }
            ranges.push((first_byte, last_byte - first_byte + 1));
        }
        proof {
            let mapped = |p: (u64, u64)| (p.0 as int, p.1 as int);
            let here = if need_start < need_end {
                seq![(block.file_offset + 24 + (need_start - processed) * rs + off, (need_end - need_start - 1) * rs + cb)]
            } else {
                Seq::<(int, int)>::empty()
            };
            assert(ranges@.map_values(mapped) =~= prev.map_values(mapped) + here);
            match ranges_from(group.data_blocks@, i + 1, block_end as int, start_record as int, end as int, rs, off, cb) {
                Some(rest) => {
                    assert(prev.map_values(mapped) + (here + rest) =~= (prev.map_values(mapped) + here) + rest);
                },
                None => {},
            }
        }
        processed = block_end;
        if processed >= end {
            proof {
                let mapped = |p: (u64, u64)| (p.0 as int, p.1 as int);
                assert(ranges@.map_values(mapped) + Seq::<(int, int)>::empty() =~= ranges@.map_values(mapped));
                assert(total == Some(ranges@.map_values(mapped)));
            }
            return Ok(ranges);
        }
        i = i + 1;
    }
    proof {
        let mapped = |p: (u64, u64)| (p.0 as int, p.1 as int);
        assert(ranges@.map_values(mapped) + Seq::<(int, int)>::empty() =~= ranges@.map_values(mapped));
    }
    Ok(ranges)
}

/// The total length of some byte ranges.
pub open spec fn total_length(s: Seq<(int, int)>) -> int
    decreases s.len(),
{
    if s.len() == 0 {
        0
    } else {
        total_length(s.drop_last()) + s.last().1
    }
}

impl MdfIndex {
    /// Whether group `g` and channel `c` exist.
    pub open spec fn valid_channel(&self, g: int, c: int) -> bool {
        0 <= g < self.channel_groups@.len() && 0 <= c < self.channel_groups@[g].channels@.len()
    }

    /// The byte ranges (offset, length) that hold the values of channel
    /// `channel_index` of group `group_index` for `record_count` records
    /// from `start_record` on: one range per data block that holds some of
    /// them (see [`ranges_from`]). Fails with
    /// [`Error::BlockSerializationError`] for an invalid group or channel,
    /// a record range past the group's records, a variable-length channel
    /// or a compressed data block.
    pub fn get_channel_byte_ranges_for_records(
        &self,
        group_index: usize,
        channel_index: usize,
        start_record: u64,
        record_count: u64,
    ) -> (r: Result<Vec<(u64, u64)>>)
        requires
            self.valid_channel(group_index as int, channel_index as int) && start_record + record_count
                <= self.channel_groups@[group_index as int].record_count && !self.is_vlsd(
                group_index as int,
                channel_index as int,
            ) ==> self.channel_ranges_fit(
                group_index as int,
                channel_index as int,
                start_record as int,
                record_count as int,
            ),
        ensures
            !self.valid_channel(group_index as int, channel_index as int) ==> (r matches Err(e)
                && e is BlockSerializationError),
            self.valid_channel(group_index as int, channel_index as int) && start_record + record_count
                > self.channel_groups@[group_index as int].record_count ==> (r matches Err(e)
                && e is BlockSerializationError),
            self.valid_channel(group_index as int, channel_index as int) && self.is_vlsd(
                group_index as int,
                channel_index as int,
            ) ==> (r matches Err(e) && e is BlockSerializationError),
            self.valid_channel(group_index as int, channel_index as int) && start_record + record_count
                <= self.channel_groups@[group_index as int].record_count && !self.is_vlsd(
                group_index as int,
                channel_index as int,
            ) ==> match self.channel_ranges(
                group_index as int,
                channel_index as int,
                start_record as int,
                record_count as int,
            ) {
                Some(v) => r matches Ok(out) && ranges_match(out@, v),
                None => r matches Err(e) && e is BlockSerializationError,
            },
    {
        if group_index >= self.channel_groups.len() {
            return Err(Error::BlockSerializationError(String::from_str("Invalid group index")));
        }
        let group = &self.channel_groups[group_index];
        if channel_index >= group.channels.len() {
            return Err(Error::BlockSerializationError(String::from_str("Invalid channel index")));
        }
        let channel = &group.channels[channel_index];
        if record_count > group.record_count || start_record > group.record_count - record_count {
            let first = crate::text::decimal_string(start_record);
            let last_record: u64 = if record_count == 0 {
                if start_record == 0 {
                    0
                } else {
                    start_record - 1
                }
            } else if start_record > u64::MAX - (record_count - 1) {
                u64::MAX
            } else {
                start_record + (record_count - 1)
            };
            let last = crate::text::decimal_string(last_record);
            let total = crate::text::decimal_string(group.record_count);
            let head = concat3("Record range ", first.as_str(), "-");
            let tail = concat3(last.as_str(), " exceeds total records ", total.as_str());
            return Err(Error::BlockSerializationError(crate::text::concat_str(head.as_str(), tail.as_str())));
        }
        if channel.channel_type == 1 && channel.vlsd_data_address.is_some() {
            return Err(Error::BlockSerializationError(String::from_str("VLSD channels not yet supported for byte range calculation")));
        }
        calculate_channel_byte_ranges_for_records(group, channel, start_record, record_count)
    }

    /// The byte ranges that hold all values of channel `channel_index` of
    /// group `group_index`: those of all the group's records. Fails as
    /// [`MdfIndex::get_channel_byte_ranges_for_records`] does.
    pub fn get_channel_byte_ranges(&self, group_index: usize, channel_index: usize) -> (r: Result<Vec<(u64, u64)>>)
        requires
            self.valid_channel(group_index as int, channel_index as int) && !self.is_vlsd(
                group_index as int,
                channel_index as int,
            ) ==> self.channel_ranges_fit(
                group_index as int,
                channel_index as int,
                0,
                self.channel_groups@[group_index as int].record_count as int,
            ),
        ensures
            !self.valid_channel(group_index as int, channel_index as int) ==> (r matches Err(e)
                && e is BlockSerializationError),
            self.valid_channel(group_index as int, channel_index as int) && self.is_vlsd(
                group_index as int,
                channel_index as int,
            ) ==> (r matches Err(e) && e is BlockSerializationError),
            self.valid_channel(group_index as int, channel_index as int) && !self.is_vlsd(
                group_index as int,
                channel_index as int,
            ) ==> match self.channel_ranges(
                group_index as int,
                channel_index as int,
                0,
                self.channel_groups@[group_index as int].record_count as int,
            ) {
                Some(v) => r matches Ok(out) && ranges_match(out@, v),
                None => r matches Err(e) && e is BlockSerializationError,
            },
    {
        if group_index >= self.channel_groups.len() {
            return Err(Error::BlockSerializationError(String::from_str("Invalid group index")));
        }
        let group = &self.channel_groups[group_index];
        if channel_index >= group.channels.len() {
            return Err(Error::BlockSerializationError(String::from_str("Invalid channel index")));
        }
        let channel = &group.channels[channel_index];
        if channel.channel_type == 1 && channel.vlsd_data_address.is_some() {
            return Err(Error::BlockSerializationError(String::from_str("VLSD channels not yet supported for byte range calculation")));
        }
        calculate_channel_byte_ranges_for_records(group, channel, 0, group.record_count)
    }

    /// The total number of bytes and the number of separate ranges that
    /// reading all values of a channel takes; fails as
    /// [`MdfIndex::get_channel_byte_ranges`] does.
    pub fn get_channel_byte_summary(&self, group_index: usize, channel_index: usize) -> (r: Result<(u64, usize)>)
        requires
            self.valid_channel(group_index as int, channel_index as int) && !self.is_vlsd(
                group_index as int,
                channel_index as int,
            ) ==> self.channel_ranges_fit(
                group_index as int,
                channel_index as int,
                0,
                self.channel_groups@[group_index as int].record_count as int,
            ) && (self.channel_ranges(
                group_index as int,
                channel_index as int,
                0,
                self.channel_groups@[group_index as int].record_count as int,
            ) matches Some(v) ==> total_length(v) <= u64::MAX),
        ensures
            !self.valid_channel(group_index as int, channel_index as int) ==> (r matches Err(e)
                && e is BlockSerializationError),
            self.valid_channel(group_index as int, channel_index as int) && self.is_vlsd(
                group_index as int,
                channel_index as int,
            ) ==> (r matches Err(e) && e is BlockSerializationError),
            self.valid_channel(group_index as int, channel_index as int) && !self.is_vlsd(
                group_index as int,
                channel_index as int,
            ) ==> match self.channel_ranges(
                group_index as int,
                channel_index as int,
                0,
                self.channel_groups@[group_index as int].record_count as int,
            ) {
                Some(v) => r matches Ok((total, n)) && total == total_length(v) && n == v.len(),
                None => r matches Err(e) && e is BlockSerializationError,
            },
    {
        let ranges = match self.get_channel_byte_ranges(group_index, channel_index) {
            Ok(v) => v,
            Err(e) => {
                return Err(e);
            },
        };
        let ghost v = self.channel_ranges(
            group_index as int,
            channel_index as int,
            0,
            self.channel_groups@[group_index as int].record_count as int,
        )->0;
        let mut total: u64 = 0;
        let mut i: usize = 0;
        while i < ranges.len()
            invariant
                ranges_match(ranges@, v),
                total_length(v) <= u64::MAX,
                i <= ranges@.len(),
                total == total_length(v.subrange(0, i as int)),
            decreases ranges@.len() - i,
        {
            proof {
                assert(v.subrange(0, i + 1).drop_last() =~= v.subrange(0, i as int));
                assert forall|k: int| 0 <= k < v.len() implies #[trigger] v[k].1 >= 0 by {
                    assert(ranges@[k].1 == v[k].1);
                }
                lemma_total_length_prefix(v, i + 1);
            }
            total = total + ranges[i].1;
            i = i + 1;
        }
        assert(v.subrange(0, i as int) =~= v);
        Ok((total, ranges.len()))
    }

    /// The byte ranges of the first channel named `channel_name` (see
    /// [`MdfIndex::find_channel_by_name_global`]); fails with
    /// [`Error::BlockSerializationError`] when there is none, and
    /// otherwise as [`MdfIndex::get_channel_byte_ranges`] does.
    pub fn get_channel_byte_ranges_by_name(&self, channel_name: &str) -> (r: Result<Vec<(u64, u64)>>)
        requires
            forall|g: int, c: int|
                #[trigger] self.channel_named(g, c, channel_name@) && !self.is_vlsd(g, c) ==> self.channel_ranges_fit(
                    g,
                    c,
                    0,
                    self.channel_groups@[g].record_count as int,
                ),
        ensures
            (forall|g: int, c: int| !#[trigger] self.channel_named(g, c, channel_name@)) ==> (r matches Err(e)
                && e is BlockSerializationError),
            r is Ok ==> exists|g: int, c: int| #[trigger] self.channel_named(g, c, channel_name@)
                && !self.is_vlsd(g, c) && (forall|g2: int, c2: int|
                MdfIndex::before(g2, c2, g, c) ==> !#[trigger] self.channel_named(g2, c2, channel_name@))
                && (self.channel_ranges(g, c, 0, self.channel_groups@[g].record_count as int) matches Some(v)
                && ranges_match(r->Ok_0@, v)),
    {
        let (g, c) = match self.find_channel_by_name_global(channel_name) {
            Some(p) => p,
            None => {
                return Err(Error::BlockSerializationError(concat3("Channel '", channel_name, "' not found")));
            },
        };
        let r = self.get_channel_byte_ranges(g, c);
        proof {
            if r is Ok {
                assert(self.channel_named(g as int, c as int, channel_name@));
            }
        }
        r
    }
}

/// The running total of a prefix of the lengths is within the whole
/// total.
proof fn lemma_total_length_prefix(v: Seq<(int, int)>, n: int)
    requires
        0 <= n <= v.len(),
        forall|k: int| 0 <= k < v.len() ==> #[trigger] v[k].1 >= 0,
    ensures
        total_length(v.subrange(0, n)) <= total_length(v),
        total_length(v.subrange(0, n)) >= 0,
    decreases v.len() - n,
{
    if n < v.len() {
        lemma_total_length_prefix(v, n + 1);
        assert(v.subrange(0, n + 1).drop_last() =~= v.subrange(0, n));
    } else {
        assert(v.subrange(0, n) =~= v);
    }
    lemma_total_length_nonneg(v.subrange(0, n));
}

proof fn lemma_total_length_nonneg(v: Seq<(int, int)>)
    requires
        forall|k: int| 0 <= k < v.len() ==> #[trigger] v[k].1 >= 0,
    ensures
        total_length(v) >= 0,
    decreases v.len(),
{
    if v.len() > 0 {
        lemma_total_length_nonneg(v.drop_last());
    }
}

/// A source of byte ranges of one file: a file on disk, a network
/// resource, a buffer. Its users implement it. An implementation that
/// declares itself faithful (see [`ByteRangeReader::faithful`]) promises
/// that a read that succeeds hands back the bytes of its file at the range
/// asked for, and that reading does not change the file; of any other
/// implementation nothing is assumed.
pub trait ByteRangeReader {
    /// The bytes of the file read from.
    closed spec fn file(&self) -> Seq<u8> {
        Seq::empty()
    }

    /// Whether this reader hands back the bytes of [`ByteRangeReader::file`].
    closed spec fn faithful(&self) -> bool {
        false
    }

    /// Reads `length` bytes from `offset` on.
    fn read_range(&mut self, offset: u64, length: u64) -> (r: Result<Vec<u8>>)
        ensures
            old(self).faithful() ==> final(self).faithful() && final(self).file() == old(self).file(),
            old(self).faithful() ==> (r matches Ok(b) ==> offset + length <= old(self).file().len() && b@
                == old(self).file().subrange(offset as int, offset + length)),
    ;
}

/// A reader over an MDF image held in memory. It is faithful: a read
/// hands back the bytes of the image at the range asked for, and fails
/// with [`Error::TooShortBuffer`] when the range runs past the image.
pub struct ImageReader {
    bytes: Vec<u8>,
}

impl ImageReader {
    /// A reader over `bytes`.
    pub fn new(bytes: Vec<u8>) -> (r: Self)
        ensures
            r.faithful(),
            r.file() == bytes@,
    {
        ImageReader { bytes }
    }
}

impl ByteRangeReader for ImageReader {
    closed spec fn file(&self) -> Seq<u8> {
        self.bytes@
    }

    closed spec fn faithful(&self) -> bool {
        true
    }

    fn read_range(&mut self, offset: u64, length: u64) -> (r: Result<Vec<u8>>)
        ensures
            r is Ok <==> offset + length <= old(self).file().len(),
    {
        let n = self.bytes.len();
        if offset > n as u64 || length > n as u64 - offset {
            return Err(Error::TooShortBuffer {
                actual: n,
                expected: if length > usize::MAX as u64 || offset > usize::MAX as u64 - length {
                    usize::MAX
                } else {
                    (offset + length) as usize
                },
                file: "index.rs",
                line: 0,
            });
        }
        let start = offset as usize;
        let end = start + length as usize;
        let mut out: Vec<u8> = Vec::new();
        let mut i: usize = start;
        while i < end
            invariant
                start <= i <= end <= self.bytes@.len(),
                out@ == self.bytes@.subrange(start as int, i as int),
            decreases end - i,
        {
            out.push(self.bytes[i]);
            i = i + 1;
            proof {
                assert(out@ =~= self.bytes@.subrange(start as int, i as int));
            }
        }
        Ok(out)
    }
}

/// Whether the identification block bytes `b` are those of a file the
/// index reads: a finalized MDF file of version 4.10 or later.
pub open spec fn supported_id_block(b: Seq<u8>) -> bool {
    &&& accepted_file_id(b)
    &&& block_version_spec(b.subrange(8, 16)) matches Some((maj, min)) && maj * 100 + min >= 410
}

/// Whether `t` is what reading the text block linked as `a` gave: none
/// for address 0, some text otherwise.
pub open spec fn text_linked(a: u64, t: Option<String>) -> bool {
    (a == 0) == (t is None)
}

/// The text of the text block of the file `f` at `a`.
pub open spec fn text_in(f: Seq<u8>, a: u64) -> Seq<char> {
    block_text(whole_block_in(f, a))
}

/// Whether `t` is the text the file `f` links as `a`: none for address 0,
/// else the text of the text block there.
pub open spec fn text_linked_in(f: Seq<u8>, a: u64, t: Option<String>) -> bool {
    match t {
        None => a == 0,
        Some(s) => a != 0 && s@ == text_in(f, a),
    }
}

/// Whether `ch` is the indexed form of the channel block bytes `b` of the
/// file `f`, its name and unit being the texts the block links and its
/// conversion read from the conversion block it links.
pub open spec fn channel_in(f: Seq<u8>, b: Seq<u8>, ch: IndexedChannel) -> bool {
    &&& channel_indexed(b, ch)
    &&& text_linked_in(f, u64_at(b, 40), ch.name)
    &&& text_linked_in(f, u64_at(b, 72), ch.unit)
    &&& ch.conversion matches Some(c) ==> c.fields_parsed_from(whole_block_in(f, u64_at(b, 56)))
}

/// Whether each channel of `chans` is the indexed form of the matching
/// channel block bytes of `bs` of the file `f` (see [`channel_in`]).
pub open spec fn channels_in(f: Seq<u8>, bs: Seq<Seq<u8>>, chans: Seq<IndexedChannel>) -> bool {
    &&& bs.len() == chans.len()
    &&& forall|c: int| 0 <= c < chans.len() ==> channel_in(f, #[trigger] bs[c], chans[c])
}

/// Whether `ch` is the indexed form of the channel block bytes `b`.
pub open spec fn channel_indexed(b: Seq<u8>, ch: IndexedChannel) -> bool {
    &&& b.len() >= 160
    &&& ch.data_type == data_type_of_code(b[90])
    &&& ch.byte_offset == u32_at(b, 92)
    &&& ch.bit_offset == b[91]
    &&& ch.bit_count == u32_at(b, 96)
    &&& ch.channel_type == b[88]
    &&& ch.flags == u32_at(b, 100)
    &&& ch.pos_invalidation_bit == u32_at(b, 104)
    &&& ch.vlsd_data_address == (if b[88] == 1 && u64_at(b, 64) != 0 {
        Some(u64_at(b, 64))
    } else {
        None
    })
    &&& text_linked(u64_at(b, 40), ch.name)
    &&& text_linked(u64_at(b, 72), ch.unit)
    &&& (ch.conversion is Some <==> u64_at(b, 56) != 0)
}

/// Whether `g` is the indexed form of the channel group block bytes `c`
/// of the data group block bytes `d` (its channels and data blocks aside).
pub open spec fn group_indexed(d: Seq<u8>, c: Seq<u8>, g: IndexedChannelGroup) -> bool {
    &&& d.len() >= 64
    &&& c.len() >= 104
    &&& g.record_id_len == d[56]
    &&& g.record_size == u32_at(c, 96)
    &&& g.invalidation_bytes == u32_at(c, 100)
    &&& g.record_count == u64_at(c, 80)
    &&& text_linked(u64_at(c, 40), g.name)
    &&& text_linked(u64_at(c, 64), g.comment)
}

/// The identifier `##DZ`.
pub open spec fn dz_id() -> Seq<char> {
    seq!['#', '#', 'D', 'Z']
}

/// Whether `d` describes the data block whose header bytes are `h`: its
/// length is the block's, and it is compressed exactly when the block is
/// `##DZ`.
pub open spec fn data_block_described(h: Seq<u8>, d: DataBlockInfo) -> bool {
    &&& h.len() >= 24
    &&& d.size == u64_at(h, 8)
    &&& d.is_compressed == (lossy_utf8(h.subrange(0, 4)) == dz_id())
}

/// Whether each entry of `ds` is described by the matching header of `hs`.
pub open spec fn data_blocks_at(hs: Seq<Seq<u8>>, ds: Seq<DataBlockInfo>) -> bool {
    &&& hs.len() == ds.len()
    &&& forall|k: int| 0 <= k < ds.len() ==> data_block_described(#[trigger] hs[k], ds[k])
}

/// The identifier of the block at `a` of the file `f`.
pub open spec fn block_id_in(f: Seq<u8>, a: u64) -> Seq<char> {
    lossy_utf8(block_in(f, a, 24).subrange(0, 4))
}

/// The description of the block at `a` of the file `f`: its address, its
/// length, and whether it is compressed (`##DZ`).
pub open spec fn block_info(f: Seq<u8>, a: u64) -> DataBlockInfo {
    DataBlockInfo {
        file_offset: a,
        size: u64_at(block_in(f, a, 24), 8),
        is_compressed: block_id_in(f, a) == dz_id(),
    }
}

/// The descriptions of the blocks that the links `links` of a data list
/// lead to, null links skipped.
pub open spec fn fragment_infos(f: Seq<u8>, links: Seq<u64>) -> Seq<DataBlockInfo>
    decreases links.len(),
{
    if links.len() == 0 {
        Seq::empty()
    } else {
        let prev = fragment_infos(f, links.drop_last());
        if links.last() != 0 {
            prev.push(block_info(f, links.last()))
        } else {
            prev
        }
    }
}

/// The block of the file `f` at `a`, as many bytes as its header gives.
pub open spec fn whole_block_in(f: Seq<u8>, a: u64) -> Seq<u8> {
    block_in(f, a, u64_at(block_in(f, a, 24), 8) as int)
}

/// The data blocks that the data link `a` of the file `f` leads to, in
/// order: a data block (`##DT`, `##DV`) or compressed block (`##DZ`) is
/// itself; a data list (`##DL`) gives the blocks its links lead to, then
/// those of the next list; a block of another kind, and address 0, end the
/// chain. `None` when the chain passes more than `fuel` blocks.
pub open spec fn data_infos_in(f: Seq<u8>, a: u64, fuel: nat) -> Option<Seq<DataBlockInfo>>
    decreases fuel,
{
    if a == 0 {
        Some(Seq::empty())
    } else if fuel == 0 {
        None
    } else {
        let id = block_id_in(f, a);
        if id == dt_block_id() || id == dv_block_id() || id == dz_id() {
            Some(seq![block_info(f, a)])
        } else if id == dl_id() {
            let b = whole_block_in(f, a);
            match data_infos_in(f, u64_at(b, 24), (fuel - 1) as nat) {
                Some(rest) => Some(fragment_infos(f, dl_data_links(b, u64_at(b, 16))) + rest),
                None => None,
            }
        } else {
            Some(Seq::empty())
        }
    }
}

/// Law: a data list block contributes all of its fragments and then the
/// data blocks of the list its next link (bytes 24..32) leads to, so a
/// recording split over a chain of data lists is indexed whole.
pub proof fn lemma_data_list_chain(f: Seq<u8>, a: u64, fuel: nat)
    requires
        a != 0,
        fuel > 0,
        block_id_in(f, a) == dl_id(),
    ensures
        data_infos_in(f, a, fuel) == then_infos(
            fragment_infos(f, dl_data_links(whole_block_in(f, a), u64_at(whole_block_in(f, a), 16))),
            data_infos_in(f, u64_at(f.subrange(a as int, a + u64_at(block_in(f, a, 24), 8)), 24), (fuel - 1) as nat),
        ),
{
    assert(dl_id() != dt_block_id() && dl_id() != dv_block_id() && dl_id() != dz_id()) by {
        assert(dl_id()[3] != dt_block_id()[3]);
        assert(dl_id()[3] != dv_block_id()[3]);
        assert(dl_id()[3] != dz_id()[3]);
    }
}

/// Law: a data block (`##DT`, `##DV`) or compressed block (`##DZ`) that
/// a data link leads to is the group's one data block, described by its
/// address, the length its header holds (bytes 8..16) and whether it is
/// compressed.
pub proof fn lemma_single_data_block(f: Seq<u8>, a: u64, fuel: nat)
    requires
        a != 0,
        fuel > 0,
        a + 24 <= f.len(),
        block_id_in(f, a) == dt_block_id() || block_id_in(f, a) == dv_block_id() || block_id_in(f, a) == dz_id(),
    ensures
        data_infos_in(f, a, fuel) == Some(
            seq![
                DataBlockInfo {
                    file_offset: a,
                    size: u64_at(f, a + 8),
                    is_compressed: block_id_in(f, a) == dz_id(),
                },
            ],
        ),
{
    assert(block_in(f, a, 24).subrange(8, 16) =~= f.subrange(a + 8, a + 16));
}

/// Law: a data list whose links are all set lists one data block per
/// link, in link order, each described from its own header.
pub proof fn lemma_fragments_in_order(f: Seq<u8>, links: Seq<u64>)
    requires
        forall|k: int| 0 <= k < links.len() ==> #[trigger] links[k] != 0,
    ensures
        fragment_infos(f, links).len() == links.len(),
        forall|k: int|
            0 <= k < links.len() ==> (#[trigger] fragment_infos(f, links)[k]).file_offset == links[k]
                && fragment_infos(f, links)[k] == block_info(f, links[k]),
    decreases links.len(),
{
    if links.len() > 0 {
        let prev = links.drop_last();
        lemma_fragments_in_order(f, prev);
        assert forall|k: int| 0 <= k < links.len() implies (#[trigger] fragment_infos(f, links)[k]).file_offset
            == links[k] && fragment_infos(f, links)[k] == block_info(f, links[k]) by {
            if k < prev.len() {
                assert(prev[k] == links[k]);
            }
        }
    }
}

/// Law: two data lists in a chain, each listing data blocks, give the
/// data blocks of the first list followed by those of the second.
pub proof fn lemma_two_data_lists(f: Seq<u8>, a: u64, fuel: nat)
    requires
        a != 0,
        fuel >= 2,
        block_id_in(f, a) == dl_id(),
        u64_at(whole_block_in(f, a), 24) != 0,
        block_id_in(f, u64_at(whole_block_in(f, a), 24)) == dl_id(),
        u64_at(whole_block_in(f, u64_at(whole_block_in(f, a), 24)), 24) == 0,
    ensures
        ({
            let b1 = whole_block_in(f, a);
            let b2 = whole_block_in(f, u64_at(b1, 24));
            data_infos_in(f, a, fuel) == Some(
                fragment_infos(f, dl_data_links(b1, u64_at(b1, 16))) + fragment_infos(
                    f,
                    dl_data_links(b2, u64_at(b2, 16)),
                ),
            )
        }),
{
    let b1 = whole_block_in(f, a);
    let n = u64_at(b1, 24);
    lemma_data_list_chain(f, a, fuel);
    lemma_data_list_chain(f, n, (fuel - 1) as nat);
    let b2 = whole_block_in(f, n);
    let second = fragment_infos(f, dl_data_links(b2, u64_at(b2, 16)));
    assert(second + Seq::<DataBlockInfo>::empty() =~= second);
}

/// `s` followed by the descriptions of `o`, when there are any.
pub open spec fn then_infos(s: Seq<DataBlockInfo>, o: Option<Seq<DataBlockInfo>>) -> Option<Seq<DataBlockInfo>> {
    match o {
        Some(t) => Some(s + t),
        None => None,
    }
}

proof fn lemma_then_infos_empty(o: Option<Seq<DataBlockInfo>>)
    ensures
        o == then_infos(Seq::empty(), o),
{
    if let Some(t) = o {
        assert(Seq::<DataBlockInfo>::empty() + t =~= t);
    }
}

proof fn lemma_then_infos_assoc(a: Seq<DataBlockInfo>, b: Seq<DataBlockInfo>, o: Option<Seq<DataBlockInfo>>)
    ensures
        then_infos(a, then_infos(b, o)) == then_infos(a + b, o),
{
    if let Some(t) = o {
        assert(a + (b + t) =~= (a + b) + t);
    }
}

/// Whether `d` and `h` were read from the same block header.
pub open spec fn header_described(d: DataBlockInfo, h: BlockHeader) -> bool {
    exists|hb: Seq<u8>| #[trigger] data_block_described(hb, d) && h.parsed_from(hb)
}

/// Whether each entry of `ds` describes a block header that was read.
pub open spec fn data_blocks_read(ds: Seq<DataBlockInfo>) -> bool {
    exists|hs: Seq<Seq<u8>>| #[trigger] data_blocks_at(hs, ds)
}

/// Whether each channel of `chans` is the indexed form of the matching
/// channel block bytes of `bs`.
pub open spec fn channels_at(bs: Seq<Seq<u8>>, chans: Seq<IndexedChannel>) -> bool {
    &&& bs.len() == chans.len()
    &&& forall|c: int| 0 <= c < chans.len() ==> channel_indexed(#[trigger] bs[c], chans[c])
}

/// Whether `g` is the indexed form of some channel group block, with
/// channels and data blocks indexed from the blocks read for them.
pub open spec fn group_read(g: IndexedChannelGroup) -> bool {
    &&& exists|d: Seq<u8>, c: Seq<u8>| #[trigger] group_indexed(d, c, g)
    &&& exists|bs: Seq<Seq<u8>>| #[trigger] channels_at(bs, g.channels@)
    &&& exists|hs: Seq<Seq<u8>>| #[trigger] data_blocks_at(hs, g.data_blocks@)
}

/// The `len` bytes of the file `f` at `a`.
pub open spec fn block_in(f: Seq<u8>, a: u64, len: int) -> Seq<u8> {
    f.subrange(a as int, a + len)
}

/// `s` followed by the addresses of `o`, when there are any.
pub open spec fn then_addrs(s: Seq<u64>, o: Option<Seq<u64>>) -> Option<Seq<u64>> {
    match o {
        Some(t) => Some(s + t),
        None => None,
    }
}

/// The addresses of the blocks along a chain of the file `f` from `a`,
/// each block linking to the next at its offset 24 (0 ends the chain),
/// when the chain ends within `fuel` blocks.
pub open spec fn chain_in(f: Seq<u8>, a: u64, fuel: nat) -> Option<Seq<u64>>
    decreases fuel,
{
    if a == 0 {
        Some(Seq::empty())
    } else if fuel == 0 {
        None
    } else {
        then_addrs(seq![a], chain_in(f, u64_at(f, a + 24), (fuel - 1) as nat))
    }
}

/// The channel groups of the data groups at `dgs` of the file `f`, in
/// order, as pairs of data group and channel group addresses, when every
/// channel group chain ends.
pub open spec fn group_addrs(f: Seq<u8>, dgs: Seq<u64>) -> Option<Seq<(u64, u64)>>
    decreases dgs.len(),
{
    if dgs.len() == 0 {
        Some(Seq::empty())
    } else {
        let dg = dgs.last();
        match (group_addrs(f, dgs.drop_last()), chain_in(f, u64_at(f, dg + 32), u64::MAX as nat)) {
            (Some(a), Some(c)) => Some(a + c.map_values(|cg: u64| (dg, cg))),
            _ => None,
        }
    }
}

/// Whether `g` is the indexed form of the channel group at `cg` of the
/// data group at `dg` of the file `f`: its fields, its name and comment
/// (the texts the block links), one channel per block of its channel
/// chain, in chain order, each indexed from its block with its name and
/// unit, and the data blocks that the data group's data link leads to
/// (see [`data_infos_in`]).
pub open spec fn group_at(f: Seq<u8>, dg: u64, cg: u64, g: IndexedChannelGroup) -> bool {
    group_at_bytes(f, block_in(f, dg, 64), cg, g)
}

/// Whether `g` is the indexed form of the channel group at `cg` of the
/// file `f`, in the data group whose block bytes are `d` (see
/// [`group_at`]).
pub open spec fn group_at_bytes(f: Seq<u8>, d: Seq<u8>, cg: u64, g: IndexedChannelGroup) -> bool {
    &&& group_indexed(d, block_in(f, cg, 104), g)
    &&& text_linked_in(f, u64_at(block_in(f, cg, 104), 40), g.name)
    &&& text_linked_in(f, u64_at(block_in(f, cg, 104), 64), g.comment)
    &&& chain_in(f, u64_at(f, cg + 32), u64::MAX as nat) matches Some(cns) && channels_in(
        f,
        cns.map_values(|a: u64| block_in(f, a, 160)),
        g.channels@,
    )
    &&& data_infos_in(f, u64_at(d, 40), u64::MAX as nat) == Some(g.data_blocks@)
}

/// Whether `groups` are the indexed forms of the channel groups of the
/// file `f`, one per channel group of each data group along the data
/// group chain that the header block at 64 starts, in order.
pub open spec fn groups_of_file(f: Seq<u8>, groups: Seq<IndexedChannelGroup>) -> bool {
    &&& chain_in(f, u64_at(f, 88int), u64::MAX as nat) matches Some(dgs)
    &&& group_addrs(f, dgs) matches Some(pairs)
    &&& pairs.len() == groups.len()
    &&& forall|k: int| 0 <= k < groups.len() ==> group_at(f, pairs[k].0, pairs[k].1, #[trigger] groups[k])
}

proof fn lemma_then_push(s: Seq<u64>, a: u64, o: Option<Seq<u64>>)
    ensures
        then_addrs(s, then_addrs(seq![a], o)) == then_addrs(s.push(a), o),
{
    if let Some(t) = o {
        assert(s + (seq![a] + t) =~= s.push(a) + t);
    }
}

proof fn lemma_channels_push(bs: Seq<Seq<u8>>, chans: Seq<IndexedChannel>, b: Seq<u8>, ch: IndexedChannel)
    requires
        channels_at(bs, chans),
        channel_indexed(b, ch),
    ensures
        channels_at(bs.push(b), chans.push(ch)),
{
    let s = chans.push(ch);
    let t = bs.push(b);
    assert forall|c: int| 0 <= c < s.len() implies channel_indexed(#[trigger] t[c], s[c]) by {
        if c < chans.len() {
            assert(s[c] == chans[c]);
            assert(t[c] == bs[c]);
        }
    }
}

proof fn lemma_channels_in_push(f: Seq<u8>, bs: Seq<Seq<u8>>, chans: Seq<IndexedChannel>, b: Seq<u8>, ch: IndexedChannel)
    requires
        channels_in(f, bs, chans),
        channel_in(f, b, ch),
    ensures
        channels_in(f, bs.push(b), chans.push(ch)),
{
    let s = chans.push(ch);
    let t = bs.push(b);
    assert forall|c: int| 0 <= c < s.len() implies channel_in(f, #[trigger] t[c], s[c]) by {
        if c < chans.len() {
            assert(s[c] == chans[c]);
            assert(t[c] == bs[c]);
        }
    }
}

proof fn lemma_data_blocks_push(hs: Seq<Seq<u8>>, ds: Seq<DataBlockInfo>, h: Seq<u8>, d: DataBlockInfo)
    requires
        data_blocks_at(hs, ds),
        data_block_described(h, d),
    ensures
        data_blocks_at(hs.push(h), ds.push(d)),
{
    let s = ds.push(d);
    let t = hs.push(h);
    assert forall|k: int| 0 <= k < s.len() implies data_block_described(#[trigger] t[k], s[k]) by {
        if k < ds.len() {
            assert(s[k] == ds[k]);
            assert(t[k] == hs[k]);
        }
    }
}

/// Reads the text of the text block at `addr`; `None` for address 0.
fn read_text_block<R: ByteRangeReader>(reader: &mut R, addr: u64) -> (r: Result<Option<String>>)
    ensures
        old(reader).faithful() ==> final(reader).faithful() && final(reader).file() == old(reader).file(),
        addr == 0 ==> r == Ok::<Option<String>, Error>(None),
        r matches Ok(t) ==> text_linked(addr, t),
        old(reader).faithful() ==> (r matches Ok(t) ==> text_linked_in(old(reader).file(), addr, t)),
{
    let ghost f0 = *reader;
    if addr == 0 {
        return Ok(None);
    }
    let header_bytes = match reader.read_range(addr, 24) {
        Ok(b) => b,
        Err(e) => {
            return Err(e);
        },
    };
    let header = match BlockHeader::from_bytes(header_bytes.as_slice()) {
        Ok(h) => h,
        Err(e) => {
            return Err(e);
        },
    };
    let block = match reader.read_range(addr, header.block_len) {
        Ok(b) => b,
        Err(e) => {
            return Err(e);
        },
    };
    let text = match TextBlock::from_bytes(block.as_slice()) {
        Ok(t) => t,
        Err(e) => {
            return Err(e);
        },
    };
    proof {
        if f0.faithful() {
            assert(block@ == whole_block_in(f0.file(), addr));
        }
    }
    Ok(Some(text.text))
}

/// Reads the conversion block at `addr` (`None` for address 0) and
/// resolves its formula or texts from the blocks it references.
fn read_conversion_block_streaming<R: ByteRangeReader>(reader: &mut R, addr: u64) -> (r: Result<Option<ConversionBlock>>)
    ensures
        old(reader).faithful() ==> final(reader).faithful() && final(reader).file() == old(reader).file(),
        addr == 0 ==> r == Ok::<Option<ConversionBlock>, Error>(None),
        r matches Ok(c) ==> (c is Some <==> addr != 0),
        r matches Ok(Some(c)) ==> exists|b: Seq<u8>| #[trigger] c.fields_parsed_from(b),
        old(reader).faithful() ==> (r matches Ok(Some(c)) ==> c.fields_parsed_from(whole_block_in(old(reader).file(), addr))),
{
    let ghost f0 = *reader;
    if addr == 0 {
        return Ok(None);
    }
    let header_bytes = match reader.read_range(addr, 24) {
        Ok(b) => b,
        Err(e) => {
            return Err(e);
        },
    };
    let header = match BlockHeader::from_bytes(header_bytes.as_slice()) {
        Ok(h) => h,
        Err(e) => {
            return Err(e);
        },
    };
    let block = match reader.read_range(addr, header.block_len) {
        Ok(b) => b,
        Err(e) => {
            return Err(e);
        },
    };
    let mut conv = match ConversionBlock::from_bytes(block.as_slice()) {
        Ok(c) => c,
        Err(e) => {
            return Err(e);
        },
    };
    match resolve_conversion_refs(reader, &mut conv) {
        Ok(()) => {},
        Err(e) => {
            return Err(e);
        },
    }
    proof {
        assert(conv.fields_parsed_from(block@));
        if f0.faithful() {
            assert(block@ == whole_block_in(f0.file(), addr));
        }
    }
    Ok(Some(conv))
}

/// Whether a conversion of type `t` references texts: value, range,
/// text or bitfield to text, and text to value.
pub open spec fn refs_text_kind(t: ConversionType) -> bool {
    t == ConversionType::ValueToText || t == ConversionType::RangeToText || t == ConversionType::TextToValue
        || t == ConversionType::TextToText || t == ConversionType::BitfieldText
}

/// Resolves the references a conversion needs to be used on its own: the
/// formula text of an algebraic conversion, and the texts referenced by
/// text-based conversions (references to other blocks are skipped).
fn resolve_conversion_refs<R: ByteRangeReader>(reader: &mut R, conv: &mut ConversionBlock) -> (r: Result<()>)
    ensures
        old(reader).faithful() ==> final(reader).faithful() && final(reader).file() == old(reader).file(),
        final(conv).same_fields(old(conv)),
        !refs_text_kind(old(conv).cc_type) && old(conv).cc_type != ConversionType::Algebraic ==> r is Ok
            && *final(conv) == *old(conv),
        old(conv).cc_type == ConversionType::Algebraic ==> final(conv).resolved_texts == old(conv).resolved_texts,
        old(conv).cc_type == ConversionType::Algebraic && (old(conv).cc_ref@.len() == 0 || old(conv).cc_ref@[0] == 0)
            ==> r is Ok && *final(conv) == *old(conv),
        r is Ok && old(conv).cc_type == ConversionType::Algebraic && old(conv).cc_ref@.len() > 0
            && old(conv).cc_ref@[0] != 0 ==> final(conv).formula is Some,
        refs_text_kind(old(conv).cc_type) ==> final(conv).formula == old(conv).formula,
        refs_text_kind(old(conv).cc_type) && (forall|k: int| 0 <= k < old(conv).cc_ref@.len() ==> #[trigger] old(conv).cc_ref@[k] == 0)
            ==> r is Ok && *final(conv) == *old(conv),
        final(conv).resolved_conversions == old(conv).resolved_conversions,
        final(conv).default_conversion == old(conv).default_conversion,
{
    match conv.cc_type {
        ConversionType::Algebraic => {
            if conv.cc_ref.len() > 0 {
                let formula_addr = conv.cc_ref[0];
                if formula_addr != 0 {
                    let f = match read_text_block(reader, formula_addr) {
                        Ok(t) => t,
                        Err(e) => {
                            return Err(e);
                        },
                    };
                    conv.formula = f;
                }
            }
            Ok(())
        },
        ConversionType::ValueToText | ConversionType::RangeToText | ConversionType::TextToValue
        | ConversionType::TextToText | ConversionType::BitfieldText => {
            let mut resolved: Vec<(usize, String)> = Vec::new();
            let tx = "##TX";
            let md = "##MD";
            let mut i: usize = 0;
            while i < conv.cc_ref.len()
                invariant
                    old(reader).faithful() ==> reader.faithful() && reader.file() == old(reader).file(),
                    i <= conv.cc_ref@.len(),
                    *conv == *old(conv),
                    refs_text_kind(conv.cc_type),
                    (forall|k: int| 0 <= k < i ==> #[trigger] conv.cc_ref@[k] == 0) ==> resolved@.len() == 0,
                decreases conv.cc_ref@.len() - i,
            {
                let ref_addr = conv.cc_ref[i];
                if ref_addr != 0 {
                    let header_bytes = match reader.read_range(ref_addr, 24) {
                        Ok(b) => b,
                        Err(e) => {
                            return Err(e);
                        },
                    };
                    let header = match BlockHeader::from_bytes(header_bytes.as_slice()) {
                        Ok(h) => h,
                        Err(e) => {
                            return Err(e);
                        },
                    };
                    if str_eq(header.id.as_str(), tx) || str_eq(header.id.as_str(), md) {
                        match read_text_block(reader, ref_addr) {
                            Ok(Some(text)) => {
                                resolved.push((i, text));
                            },
                            _ => {},
                        }
                    }
                }
                i = i + 1;
            }
            if resolved.len() > 0 {
                conv.resolved_texts = Some(resolved);
            }
            Ok(())
        },
        _ => Ok(()),
    }
}

/// Reads the header of the block at `addr` and describes it.
fn describe_block<R: ByteRangeReader>(reader: &mut R, addr: u64) -> (r: Result<(DataBlockInfo, BlockHeader)>)
    ensures
        old(reader).faithful() ==> final(reader).faithful() && final(reader).file() == old(reader).file(),
        r matches Ok((d, h)) ==> d.file_offset == addr && header_described(d, h),
        old(reader).faithful() ==> (r matches Ok((d, h)) ==> d == block_info(old(reader).file(), addr)
            && h.id@ == block_id_in(old(reader).file(), addr) && h.block_len == u64_at(
            block_in(old(reader).file(), addr, 24),
            8,
        )),
{
    let ghost f0 = *reader;
    let header_bytes = match reader.read_range(addr, 24) {
        Ok(b) => b,
        Err(e) => {
            return Err(e);
        },
    };
    let header = match BlockHeader::from_bytes(header_bytes.as_slice()) {
        Ok(h) => h,
        Err(e) => {
            return Err(e);
        },
    };
    let dz = "##DZ";
    proof {
        reveal_strlit("##DZ");
        assert(dz@ =~= dz_id());
    }
    let compressed = str_eq(header.id.as_str(), dz);
    let d = DataBlockInfo { file_offset: addr, size: header.block_len, is_compressed: compressed };
    proof {
        assert(data_block_described(header_bytes@, d));
        assert(header.parsed_from(header_bytes@));
        assert(header_described(d, header));
    }
    Ok((d, header))
}

/// Collects the data blocks of a data group from its data link on: a data
/// block (`##DT`, `##DV`) or compressed block (`##DZ`) ends the chain, a
/// data list block (`##DL`) lists its fragments and leads on to the next
/// list, and a block of another kind ends the chain.
fn extract_data_blocks_streaming<R: ByteRangeReader>(reader: &mut R, data_addr: u64) -> (r: Result<Vec<DataBlockInfo>>)
    ensures
        old(reader).faithful() ==> final(reader).faithful() && final(reader).file() == old(reader).file(),
        data_addr == 0 ==> (r matches Ok(v) && v@.len() == 0),
        r matches Ok(v) ==> data_blocks_read(v@),
        old(reader).faithful() ==> (r matches Ok(v) ==> data_infos_in(old(reader).file(), data_addr, u64::MAX as nat)
            == Some(v@)),
{
    let ghost f0 = *reader;
    let ghost ff = f0.file();
    let mut blocks: Vec<DataBlockInfo> = Vec::new();
    let ghost mut hs: Seq<Seq<u8>> = Seq::empty();
    let mut current: u64 = data_addr;
    let mut fuel: u64 = u64::MAX;
    let dt = "##DT";
    let dv = "##DV";
    let dz = "##DZ";
    let dl = "##DL";
    proof {
        reveal_strlit("##DT");
        reveal_strlit("##DV");
        reveal_strlit("##DZ");
        reveal_strlit("##DL");
        assert(dt@ =~= dt_block_id());
        assert(dv@ =~= dv_block_id());
        assert(dz@ =~= dz_id());
        assert(dl@ =~= dl_id());
        assert(Seq::<DataBlockInfo>::empty() + Seq::<DataBlockInfo>::empty() =~= Seq::<DataBlockInfo>::empty());
        if f0.faithful() {
            lemma_then_infos_empty(data_infos_in(ff, data_addr, u64::MAX as nat));
        }
    }
    while current != 0
        invariant
            old(reader).faithful() ==> reader.faithful() && reader.file() == old(reader).file(),
            data_blocks_at(hs, blocks@),
            data_addr == 0 ==> current == 0 && blocks@.len() == 0,
            f0 == *old(reader),
            ff == f0.file(),
            dt@ == dt_block_id(),
            dv@ == dv_block_id(),
            dz@ == dz_id(),
            dl@ == dl_id(),
            f0.faithful() ==> data_infos_in(ff, data_addr, u64::MAX as nat) == then_infos(
                blocks@,
                data_infos_in(ff, current, fuel as nat),
            ),
        decreases fuel,
    {
        if fuel == 0 {
            return Err(Error::BlockLinkError(String::from_str("the data block chain does not end")));
        }
        let ghost fuel0 = fuel;
        let ghost cur = current;
        let ghost blocks0 = blocks@;
        fuel = fuel - 1;
        let (info, header) = match describe_block(reader, current) {
            Ok(p) => p,
            Err(e) => {
                return Err(e);
            },
        };
        if str_eq(header.id.as_str(), dt) || str_eq(header.id.as_str(), dv) || str_eq(header.id.as_str(), dz) {
            let ghost hb = choose|hb: Seq<u8>| #[trigger] data_block_described(hb, info) && header.parsed_from(hb);
            proof {
                assert(header_described(info, header));
            }
            proof {
                lemma_data_blocks_push(hs, blocks@, hb, info);
                hs = hs.push(hb);
            }
            blocks.push(info);
            current = 0;
            proof {
                if f0.faithful() {
                    assert(data_infos_in(ff, cur, fuel0 as nat) == Some(seq![info]));
                    assert(blocks0 + seq![info] + Seq::<DataBlockInfo>::empty() =~= blocks0 + seq![info]);
                    assert(blocks@ =~= blocks0 + seq![info]);
                }
            }
        } else if str_eq(header.id.as_str(), dl) {
            let dl_bytes = match reader.read_range(current, header.block_len) {
                Ok(b) => b,
                Err(e) => {
                    return Err(e);
                },
            };
            let list = match DataListBlock::from_bytes(dl_bytes.as_slice()) {
                Ok(l) => l,
                Err(e) => {
                    return Err(e);
                },
            };
            let ghost links = list.data_links@;
            proof {
                if f0.faithful() {
                    assert(dl_bytes@ == whole_block_in(ff, cur));
                    assert(blocks0 + fragment_infos(ff, links.subrange(0, 0)) =~= blocks0);
                }
            }
            let mut k: usize = 0;
            while k < list.data_links.len()
                invariant
                    old(reader).faithful() ==> reader.faithful() && reader.file() == old(reader).file(),
                    k <= list.data_links@.len(),
                    data_blocks_at(hs, blocks@),
                    data_addr != 0,
                    links == list.data_links@,
                    f0 == *old(reader),
                    ff == f0.file(),
                    f0.faithful() ==> blocks@ == blocks0 + fragment_infos(ff, links.subrange(0, k as int)),
                decreases list.data_links@.len() - k,
            {
                let frag = list.data_links[k];
                let ghost bk = blocks@;
                proof {
                    assert(links.subrange(0, k + 1).drop_last() =~= links.subrange(0, k as int));
                    assert(links.subrange(0, k + 1).last() == frag);
                }
                if frag != 0 {
                    let (finfo, fheader) = match describe_block(reader, frag) {
                        Ok(p) => p,
                        Err(e) => {
                            return Err(e);
                        },
                    };
                    let ghost hb = choose|hb: Seq<u8>| #[trigger] data_block_described(hb, finfo);
                    proof {
                        assert(header_described(finfo, fheader));
                    }
                    proof {
                        lemma_data_blocks_push(hs, blocks@, hb, finfo);
                        hs = hs.push(hb);
                    }
                    blocks.push(finfo);
                    proof {
                        if f0.faithful() {
                            assert(blocks@ =~= blocks0 + fragment_infos(ff, links.subrange(0, k + 1)));
                        }
                    }
                }
                k = k + 1;
            }
            current = list.next;
            proof {
                if f0.faithful() {
                    assert(links.subrange(0, links.len() as int) =~= links);
                    let b = whole_block_in(ff, cur);
                    assert(links == dl_data_links(b, u64_at(b, 16)));
                    lemma_then_infos_assoc(blocks0, fragment_infos(ff, links), data_infos_in(ff, current, fuel as nat));
                }
            }
        } else {
            current = 0;
            proof {
                if f0.faithful() {
                    assert(data_infos_in(ff, cur, fuel0 as nat) == Some(Seq::<DataBlockInfo>::empty()));
                    assert(blocks0 + Seq::<DataBlockInfo>::empty() =~= blocks0);
                }
            }
        }
    }
    proof {
        assert(data_blocks_at(hs, blocks@));
        assert(data_blocks_read(blocks@));
        if f0.faithful() {
            assert(blocks@ + Seq::<DataBlockInfo>::empty() =~= blocks@);
        }
    }
    Ok(blocks)
}

impl MdfIndex {
    /// Builds an index by reading only the blocks it needs from `reader`:
    /// the identification and header blocks, then every data group, its
    /// channel groups and their channels along their links, with names,
    /// units and conversions, and the data blocks of each data group.
    /// Fails with the reader's error or the error of a block that does not
    /// parse; a file that is not a finalized MDF file of version 4.10 or
    /// later is refused, and an identification block whose text cannot be
    /// decoded fails with [`Error::FileIdentifierError`]. From a faithful
    /// reader the index is that of the file (see [`groups_of_file`]): one
    /// group per channel group along the data group and channel group
    /// chains, with the texts and data blocks the file links.
    pub fn from_reader<R: ByteRangeReader>(reader: &mut R, file_size: u64) -> (r: Result<MdfIndex>)
        ensures
            old(reader).faithful() ==> final(reader).faithful() && final(reader).file() == old(reader).file(),
            r matches Ok(idx) ==> idx.file_size == file_size && forall|g: int|
                0 <= g < idx.channel_groups@.len() ==> group_read(#[trigger] idx.channel_groups@[g]),
            old(reader).faithful() ==> (r matches Ok(idx) ==> groups_of_file(old(reader).file(), idx.channel_groups@)),
            old(reader).faithful() ==> (r is Ok ==> old(reader).file().len() >= 64 && supported_id_block(
                old(reader).file().subrange(0, 64),
            )),
    {
        let ghost f0 = *reader;
        let ghost ff = f0.file();
        let id_bytes = match reader.read_range(0, 64) {
            Ok(b) => b,
            Err(e) => {
                return Err(e);
            },
        };
        if !IdentificationBlock::can_parse(id_bytes.as_slice()) {
            let shown = if id_bytes.len() >= 8 {
                crate::text::utf8_lossy(vstd::slice::slice_subrange(id_bytes.as_slice(), 0, 8))
            } else {
                String::new()
            };
            return Err(Error::FileIdentifierError(shown));
        }
        match IdentificationBlock::from_bytes(id_bytes.as_slice()) {
            Ok(_) => {},
            Err(e) => {
                return Err(e);
            },
        }
        let hd_bytes = match reader.read_range(64, 104) {
            Ok(b) => b,
            Err(e) => {
                return Err(e);
            },
        };
        let header = match HeaderBlock::from_bytes(hd_bytes.as_slice()) {
            Ok(h) => h,
            Err(e) => {
                return Err(e);
            },
        };
        let mut groups: Vec<IndexedChannelGroup> = Vec::new();
        let mut dg_addr = header.first_dg_addr;
        let mut dg_fuel: u64 = u64::MAX;
        let ghost mut dgs_done: Seq<u64> = Seq::empty();
        let ghost mut pairs: Seq<(u64, u64)> = Seq::empty();
        proof {
            if f0.faithful() {
                assert(hd_bytes@.subrange(24, 32) =~= ff.subrange(88, 96));
                assert(dgs_done + Seq::<u64>::empty() =~= dgs_done);
            }
        }
        while dg_addr != 0
            invariant
                old(reader).faithful() ==> reader.faithful() && reader.file() == old(reader).file(),
                forall|g: int| 0 <= g < groups@.len() ==> group_read(#[trigger] groups@[g]),
                f0 == *old(reader),
                ff == f0.file(),
                f0.faithful() ==> chain_in(ff, u64_at(ff, 88int), u64::MAX as nat) == then_addrs(
                    dgs_done,
                    chain_in(ff, dg_addr, dg_fuel as nat),
                ),
                f0.faithful() ==> group_addrs(ff, dgs_done) == Some(pairs),
                f0.faithful() ==> pairs.len() == groups@.len(),
                f0.faithful() ==> forall|k: int|
                    0 <= k < groups@.len() ==> group_at(ff, pairs[k].0, pairs[k].1, #[trigger] groups@[k]),
            decreases dg_fuel,
        {
            if dg_fuel == 0 {
                return Err(Error::BlockLinkError(String::from_str("the data group chain does not end")));
            }
            let ghost dg_fuel0 = dg_fuel;
            let ghost dg_cur = dg_addr;
            dg_fuel = dg_fuel - 1;
            let dg_bytes = match reader.read_range(dg_addr, 64) {
                Ok(b) => b,
                Err(e) => {
                    return Err(e);
                },
            };
            let dg = match DataGroupBlock::from_bytes(dg_bytes.as_slice()) {
                Ok(d) => d,
                Err(e) => {
                    return Err(e);
                },
            };
            let ghost dgb = dg_bytes@;
            let mut cg_addr = dg.first_cg_addr;
            let mut cg_fuel: u64 = u64::MAX;
            let ghost mut cgs_done: Seq<u64> = Seq::empty();
            let ghost pairs0 = pairs;
            proof {
                if f0.faithful() {
                    assert(dgb == block_in(ff, dg_cur, 64));
                    assert(dgb.subrange(32, 40) =~= ff.subrange(dg_cur + 32, dg_cur + 40));
                    assert(dgb.subrange(24, 32) =~= ff.subrange(dg_cur + 24, dg_cur + 32));
                    assert(cgs_done + Seq::<u64>::empty() =~= cgs_done);
                    assert(pairs =~= pairs0 + cgs_done.map_values(|c: u64| (dg_cur, c)));
                    lemma_then_push(dgs_done, dg_cur, chain_in(ff, dg.next_dg_addr, dg_fuel as nat));
                    assert(chain_in(ff, dg_cur, dg_fuel0 as nat) == then_addrs(
                        seq![dg_cur],
                        chain_in(ff, dg.next_dg_addr, dg_fuel as nat),
                    ));
                }
            }
            while cg_addr != 0
                invariant
                    old(reader).faithful() ==> reader.faithful() && reader.file() == old(reader).file(),
                    dgb.len() >= 64,
                    dg.record_id_len == dgb[56],
                    dg.data_block_addr == u64_at(dgb, 40),
                    forall|g: int| 0 <= g < groups@.len() ==> group_read(#[trigger] groups@[g]),
                    f0 == *old(reader),
                    ff == f0.file(),
                    f0.faithful() ==> dgb == block_in(ff, dg_cur, 64),
                    f0.faithful() ==> chain_in(ff, u64_at(ff, dg_cur + 32), u64::MAX as nat) == then_addrs(
                        cgs_done,
                        chain_in(ff, cg_addr, cg_fuel as nat),
                    ),
                    f0.faithful() ==> group_addrs(ff, dgs_done) == Some(pairs0),
                    f0.faithful() ==> pairs == pairs0 + cgs_done.map_values(|c: u64| (dg_cur, c)),
                    f0.faithful() ==> pairs.len() == groups@.len(),
                    f0.faithful() ==> forall|k: int|
                        0 <= k < groups@.len() ==> group_at(ff, pairs[k].0, pairs[k].1, #[trigger] groups@[k]),
                decreases cg_fuel,
            {
                if cg_fuel == 0 {
                    return Err(Error::BlockLinkError(String::from_str("the channel group chain does not end")));
                }
                let ghost cg_fuel0 = cg_fuel;
                let ghost cg_cur = cg_addr;
                cg_fuel = cg_fuel - 1;
                let (g, next) = match Self::read_group(reader, dg.record_id_len, dg.data_block_addr, cg_addr, Ghost(dgb)) {
                    Ok(p) => p,
                    Err(e) => {
                        return Err(e);
                    },
                };
                let ghost before = groups@;
                let ghost pairs_before = pairs;
                groups.push(g);
                proof {
                    assert forall|k: int| 0 <= k < groups@.len() implies group_read(#[trigger] groups@[k]) by {
                        if k < before.len() {
                            assert(groups@[k] == before[k]);
                        }
                    }
                    if f0.faithful() {
                        lemma_then_push(cgs_done, cg_cur, chain_in(ff, next, cg_fuel as nat));
                        assert(chain_in(ff, cg_cur, cg_fuel0 as nat) == then_addrs(
                            seq![cg_cur],
                            chain_in(ff, next, cg_fuel as nat),
                        ));
                        pairs = pairs.push((dg_cur, cg_cur));
                        assert(pairs =~= pairs0 + cgs_done.push(cg_cur).map_values(|c: u64| (dg_cur, c)));
                        assert forall|k: int| 0 <= k < groups@.len() implies group_at(
                            ff,
                            pairs[k].0,
                            pairs[k].1,
                            #[trigger] groups@[k],
                        ) by {
                            if k < before.len() {
                                assert(groups@[k] == before[k]);
                                assert(pairs[k] == pairs_before[k]);
                            }
                        }
                    }
                    cgs_done = cgs_done.push(cg_cur);
                }
                cg_addr = next;
            }
            proof {
                if f0.faithful() {
                    assert(chain_in(ff, u64_at(ff, dg_cur + 32), u64::MAX as nat) == Some(cgs_done)) by {
                        assert(cgs_done + Seq::<u64>::empty() =~= cgs_done);
                    }
                    assert(dgs_done.push(dg_cur).drop_last() =~= dgs_done);
                    assert(group_addrs(ff, dgs_done.push(dg_cur)) == Some(pairs));
                }
                dgs_done = dgs_done.push(dg_cur);
            }
            dg_addr = dg.next_dg_addr;
        }
        proof {
            if f0.faithful() {
                assert(chain_in(ff, u64_at(ff, 88int), u64::MAX as nat) == Some(dgs_done)) by {
                    assert(dgs_done + Seq::<u64>::empty() =~= dgs_done);
                }
            }
        }
        Ok(MdfIndex { file_size, channel_groups: groups })
    }

    /// Reads the channel group at `cg_addr` of a data group (record ID
    /// length `record_id_len`, data at `data_addr`, block bytes `dgb`)
    /// with its channels and data blocks; returns it with the address of
    /// the next channel group.
    fn read_group<R: ByteRangeReader>(
        reader: &mut R,
        record_id_len: u8,
        data_addr: u64,
        cg_addr: u64,
        Ghost(dgb): Ghost<Seq<u8>>,
    ) -> (r: Result<(IndexedChannelGroup, u64)>)
        requires
            dgb.len() >= 64,
            record_id_len == dgb[56],
            data_addr == u64_at(dgb, 40),
        ensures
            old(reader).faithful() ==> final(reader).faithful() && final(reader).file() == old(reader).file(),
            r matches Ok((g, next)) ==> group_read(g),
            old(reader).faithful() ==> (r matches Ok((g, next)) ==> group_at_bytes(
                old(reader).file(),
                dgb,
                cg_addr,
                g,
            ) && next == u64_at(old(reader).file(), cg_addr + 24)),
    {
        let ghost f0 = *reader;
        let cg_bytes = match reader.read_range(cg_addr, 104) {
            Ok(b) => b,
            Err(e) => {
                return Err(e);
            },
        };
        let cg = match ChannelGroupBlock::from_bytes(cg_bytes.as_slice()) {
            Ok(c) => c,
            Err(e) => {
                return Err(e);
            },
        };
        let name = match read_text_block(reader, cg.acq_name_addr) {
            Ok(t) => t,
            Err(e) => {
                return Err(e);
            },
        };
        let comment = match read_text_block(reader, cg.comment_addr) {
            Ok(t) => t,
            Err(e) => {
                return Err(e);
            },
        };
        let mut channels: Vec<IndexedChannel> = Vec::new();
        let ghost mut bs: Seq<Seq<u8>> = Seq::empty();
        let ghost mut done: Seq<u64> = Seq::empty();
        let ghost ff = f0.file();
        let mut cn_addr = cg.first_ch_addr;
        let mut fuel: u64 = u64::MAX;
        proof {
            if f0.faithful() {
                assert(cg_bytes@.subrange(32, 40) =~= ff.subrange(cg_addr + 32, cg_addr + 40));
                assert(cn_addr == u64_at(ff, cg_addr + 32));
                assert(done + Seq::<u64>::empty() =~= done);
            }
        }
        while cn_addr != 0
            invariant
                old(reader).faithful() ==> reader.faithful() && reader.file() == old(reader).file(),
                channels_at(bs, channels@),
                f0 == *old(reader),
                ff == f0.file(),
                f0.faithful() ==> chain_in(ff, u64_at(ff, cg_addr + 32), u64::MAX as nat) == then_addrs(
                    done,
                    chain_in(ff, cn_addr, fuel as nat),
                ),
                f0.faithful() ==> channels_in(ff, done.map_values(|a: u64| block_in(ff, a, 160)), channels@),
            decreases fuel,
        {
            if fuel == 0 {
                return Err(Error::BlockLinkError(String::from_str("the channel chain does not end")));
            }
            let ghost fuel0 = fuel;
            fuel = fuel - 1;
            let (ch, next) = match Self::read_channel(reader, cn_addr) {
                Ok(p) => p,
                Err(e) => {
                    return Err(e);
                },
            };
            let ghost b = choose|b: Seq<u8>| #[trigger] channel_indexed(b, ch);
            proof {
                lemma_channels_push(bs, channels@, b, ch);
                bs = bs.push(b);
                if f0.faithful() {
                    lemma_then_push(done, cn_addr, chain_in(ff, next, fuel as nat));
                    assert(chain_in(ff, cn_addr, fuel0 as nat) == then_addrs(seq![cn_addr], chain_in(ff, next, fuel as nat)));
                    lemma_channels_in_push(ff, done.map_values(|a: u64| block_in(ff, a, 160)), channels@, block_in(ff, cn_addr, 160), ch);
                    assert(done.push(cn_addr).map_values(|a: u64| block_in(ff, a, 160)) =~= done.map_values(
                        |a: u64| block_in(ff, a, 160),
                    ).push(block_in(ff, cn_addr, 160)));
                }
                done = done.push(cn_addr);
            }
            channels.push(ch);
            cn_addr = next;
        }
        let data_blocks = match extract_data_blocks_streaming(reader, data_addr) {
            Ok(v) => v,
            Err(e) => {
                return Err(e);
            },
        };
        let group = IndexedChannelGroup {
            name,
            comment,
            record_id_len,
            record_size: cg.samples_byte_nr,
            invalidation_bytes: cg.invalidation_bytes_nr,
            record_count: cg.cycles_nr,
            channels,
            data_blocks,
        };
        proof {
            assert(group_indexed(dgb, cg_bytes@, group));
            assert(channels_at(bs, group.channels@));
            assert(data_blocks_read(data_blocks@));
            let hs = choose|hs: Seq<Seq<u8>>| #[trigger] data_blocks_at(hs, data_blocks@);
            assert(data_blocks_at(hs, group.data_blocks@));
            if f0.faithful() {
                assert(cg_bytes@ == block_in(ff, cg_addr, 104));
                assert(chain_in(ff, u64_at(ff, cg_addr + 32), u64::MAX as nat) == Some(done)) by {
                    assert(done + Seq::<u64>::empty() =~= done);
                }
                assert(cg_bytes@.subrange(24, 32) =~= ff.subrange(cg_addr + 24, cg_addr + 32));
            }
        }
        Ok((group, cg.next_cg_addr))
    }

    /// Reads the channel block at `cn_addr` with its name, unit and
    /// conversion; returns it with the address of the next channel.
    fn read_channel<R: ByteRangeReader>(reader: &mut R, cn_addr: u64) -> (r: Result<(IndexedChannel, u64)>)
        ensures
            old(reader).faithful() ==> final(reader).faithful() && final(reader).file() == old(reader).file(),
            r matches Ok((ch, next)) ==> exists|b: Seq<u8>| #[trigger] channel_indexed(b, ch) && next == u64_at(b, 24),
            old(reader).faithful() ==> (r matches Ok((ch, next)) ==> channel_in(
                old(reader).file(),
                block_in(old(reader).file(), cn_addr, 160),
                ch,
            ) && next == u64_at(old(reader).file(), cn_addr + 24)),
    {
        let ghost f0 = *reader;
        let cn_bytes = match reader.read_range(cn_addr, 160) {
            Ok(b) => b,
            Err(e) => {
                return Err(e);
            },
        };
        let cn = match ChannelBlock::from_bytes(cn_bytes.as_slice()) {
            Ok(c) => c,
            Err(e) => {
                return Err(e);
            },
        };
        let name = match read_text_block(reader, cn.name_addr) {
            Ok(t) => t,
            Err(e) => {
                return Err(e);
            },
        };
        let unit = match read_text_block(reader, cn.unit_addr) {
            Ok(t) => t,
            Err(e) => {
                return Err(e);
            },
        };
        let conversion = match read_conversion_block_streaming(reader, cn.conversion_addr) {
            Ok(c) => c,
            Err(e) => {
                return Err(e);
            },
        };
        let ch = IndexedChannel {
            name,
            unit,
            data_type: cn.data_type,
            byte_offset: cn.byte_offset,
            bit_offset: cn.bit_offset,
            bit_count: cn.bit_count,
            channel_type: cn.channel_type,
            flags: cn.flags,
            pos_invalidation_bit: cn.pos_invalidation_bit,
            conversion,
            vlsd_data_address: if cn.channel_type == 1 && cn.data != 0 {
                Some(cn.data)
            } else {
                None
            },
        };
        proof {
            assert(channel_indexed(cn_bytes@, ch));
            if f0.faithful() {
                assert(cn_bytes@ == block_in(f0.file(), cn_addr, 160));
                assert(cn_bytes@.subrange(24, 32) =~= f0.file().subrange(cn_addr + 24, cn_addr + 32));
            }
        }
        Ok((ch, cn.next_ch_addr))
    }
}

} // verus!
