//! Creating and linking the structure blocks of an MDF file.
use super::{cg_ids_below, 
    align_pad, block_span, kind_code, kind_count, kind_of, lemma_record_lookup, lookup,
    lemma_table_grows, record_position, splice, BlockId, ChannelLayout, GroupState, MdfWriter,
};
use crate::blocks::channel_block::{with_name_link, CN_CHANNEL_TYPE_OFFSET, CN_NAME_LINK, CN_SYNC_TYPE_OFFSET, CN_UNIT_LINK};
use crate::blocks::channel_group_block::{CG_ACQ_NAME_LINK, CG_ACQ_SOURCE_LINK, CG_FIRST_CH_LINK};
use crate::blocks::common::{data_type_default_bits, u32_at, u64_at, zeros};
use vstd::bytes::*;
use crate::blocks::identification_block::default_identification_bytes;
use crate::blocks::text_block::{text_block_image, text_block_len};
use crate::blocks::{
    BlockHeader, BlockParse, ChannelBlock, ChannelGroupBlock, ConversionBlock, ConversionType, DataGroupBlock,
    HeaderBlock, IdentificationBlock, TextBlock,
};
use crate::float_bits::{f64_holds_int, i64_to_f64_bits};
use vstd::string::StringExecFns;
use crate::error::{Error, Result};
use vstd::prelude::*;
use vstd::utf8::encode_utf8;

verus! {


impl MdfWriter {
    /// Writes the standard identification block and the default header
    /// block and records them. This never fails; on an empty writer the
    /// identification block lands at 0 and the header at 64.
    pub fn init_mdf_file(&mut self) -> (r: Result<(u64, u64)>)
        requires
            old(self).wf(),
        ensures
            final(self).group_names_map() == old(self).group_names_map(),
            final(self).channel_units_map() == old(self).channel_units_map(),
            final(self).wf(),
            final(self).extends(old(self)),
            r matches Ok((id_pos, hd_pos)) && final(self).position_of(BlockId::Identification)
                == Some(id_pos) && final(self).position_of(BlockId::Header) == Some(hd_pos),
            old(self).bytes().len() == 0 ==> final(self).bytes().subrange(0, 64)
                == default_identification_bytes() && r == Ok::<(u64, u64), Error>((0u64, 64u64)),
            forall|x: BlockId| #[trigger] final(self).is_open(x) == old(self).is_open(x),
            old(self).bytes().len() == 0 && old(self).table().len() == 0 ==> final(self).id_at_start(),
            final(self).cg_kept(old(self)),
    {
        let id_block = IdentificationBlock::default();
        let id_bytes = match id_block.to_bytes() {
            Ok(b) => b,
            Err(e) => {
                return Err(e);
            },
        };
        let ghost s0 = *self;
        let id_pos = match self.write_block_with_id(id_bytes.as_slice(), BlockId::Identification) {
            Ok(p) => p,
            Err(e) => {
                return Err(e);
            },
        };
        let ghost s1 = *self;
        proof {
            super::lemma_cg_record(&s0, &s1, BlockId::Identification, id_pos);
        }
        let hd_block = HeaderBlock::default();
        let hd_bytes = match hd_block.to_bytes() {
            Ok(b) => b,
            Err(e) => {
                return Err(e);
            },
        };
        let hd_pos = match self.write_block_with_id(hd_bytes.as_slice(), BlockId::Header) {
            Ok(p) => p,
            Err(e) => {
                return Err(e);
            },
        };
        proof {
            super::lemma_cg_record(&s1, self, BlockId::Header, hd_pos);
            lemma_record_lookup(s0.table(), BlockId::Identification, id_pos, BlockId::Identification);
            lemma_record_lookup(s1.table(), BlockId::Header, hd_pos, BlockId::Identification);
            lemma_record_lookup(s1.table(), BlockId::Header, hd_pos, BlockId::Header);
            assert forall|id: BlockId| s0.position_of(id) is Some implies #[trigger] self.position_of(id) is Some by {
                lemma_record_lookup(s0.table(), BlockId::Identification, id_pos, id);
                lemma_record_lookup(s1.table(), BlockId::Header, hd_pos, id);
            }
            assert forall|cg: BlockId| s0.has_group(cg) implies #[trigger] self.has_group(cg) by {
                let i = choose|i: int| 0 <= i < s0.groups@.len() && #[trigger] s0.groups@[i].cg == cg;
                assert(self.groups@[i].cg == cg);
            }
            assert forall|x: BlockId| #[trigger] self.is_open(x) == s0.is_open(x) by {
                assert(self.groups@ == s0.groups@);
            }
            if s0.bytes().len() == 0 {
                assert(align_pad(0) == 0);
                assert(s1.bytes() =~= id_bytes@);
                assert(self.bytes().subrange(0, 64) =~= id_bytes@);
            }
        }
        Ok((id_pos, hd_pos))
    }
}

} // verus!

verus! {

impl MdfWriter {
    /// Writes a block, records it as `id` and links it from the field at
    /// `link_offset` of block `source`. Fails with [`Error::BlockLinkError`]
    /// exactly when the source field cannot be patched; the block is
    /// written either way.
    fn write_and_link(&mut self, bytes: &[u8], id: BlockId, source: BlockId, link_offset: u64) -> (r: Result<u64>)
        requires
            old(self).wf(),
            bytes@.len() >= block_span(id),
        ensures
            final(self).group_names_map() == old(self).group_names_map(),
            final(self).channel_units_map() == old(self).channel_units_map(),
            final(self).wf(),
            final(self).extends(old(self)),
            forall|x: BlockId| #[trigger] final(self).is_open(x) == old(self).is_open(x),
            final(self).same_layout(*old(self)),
            old(self).linkable(source, link_offset + 8) ==> r is Ok,
            r matches Err(e) ==> e is BlockLinkError,
            r matches Ok(p) ==> final(self).position_of(id) == Some(p) && p % 8 == 0
                && final(self).position_of(source) is Some && u64_at(
                final(self).bytes(),
                final(self).position_of(source)->0 + link_offset,
            ) == p,
            final(self).position_of(id) is Some,
            id != BlockId::Identification && source != BlockId::Identification ==> final(self).keeps_start(old(self)),
            old(self).linkable(source, link_offset + 8) && source != id ==> final(self).bytes().subrange(
                final(self).position_of(id)->0 as int,
                final(self).position_of(id)->0 + bytes@.len(),
            ) == bytes@,
            (id is ChannelGroup ==> kind_count(old(self).table(), 3) <= usize::MAX && id == BlockId::ChannelGroup(
                kind_count(old(self).table(), 3) as usize,
            )) ==> final(self).cg_kept(old(self)),
    {
        let ghost s0 = *self;
        let p = match self.write_block_with_id(bytes, id) {
            Ok(p) => p,
            Err(e) => {
                return Err(e);
            },
        };
        let ghost s1 = *self;
        proof {
            if id is ChannelGroup ==> kind_count(s0.table(), 3) <= usize::MAX && id == BlockId::ChannelGroup(
                kind_count(s0.table(), 3) as usize,
            ) {
                super::lemma_cg_record(&s0, &s1, id, p);
            }
            lemma_table_grows(s0.table(), id, p);
            lemma_record_lookup(s0.table(), id, p, source);
            if s0.linkable(source, link_offset + 8) {
                s1.lemma_linkable_patchable(source, link_offset, 8);
            }
        }
        match self.update_block_link(source, link_offset, id) {
            Ok(()) => {},
            Err(e) => {
                proof {
                    s1.lemma_same_groups(&s0);
                    self.lemma_same_groups(&s1);
                }
                return Err(e);
            },
        }
        proof {
            s1.lemma_same_groups(&s0);
            self.lemma_same_groups(&s1);
            super::lemma_splice_u64_at(
                s1.bytes(),
                s1.position_of(source)->0 + link_offset,
                p,
            );
            assert(s1.bytes().subrange(p as int, p + bytes@.len()) =~= bytes@);
            if s0.linkable(source, link_offset + 8) && source != id {
                lemma_record_entry_before(&s0, source);
                let off = s1.position_of(source)->0 + link_offset;
                let v = spec_u64_to_le_bytes(p);
                crate::blocks::common::lemma_le_roundtrips();
                assert(off + 8 <= p);
                assert(v.len() == 8);
                assert forall|j: int| p <= j < p + bytes@.len() implies self.bytes()[j] == s1.bytes()[j] by {
                    assert(super::splice(s1.bytes(), off as int, v)[j] == s1.bytes()[j]);
                }
                assert(self.bytes().subrange(p as int, p + bytes@.len()) =~= bytes@);
            }
        }
        Ok(p)
    }
}

} // verus!

verus! {

impl MdfWriter {
    /// Adds a default data group block, linked from `prev_dg_id` (its
    /// next-group link) or, when that is `None`, from the header block (its
    /// first-group link). The new group is named after the number of data
    /// groups recorded so far. Fails with [`Error::BlockLinkError`] when the
    /// block to link from cannot be patched; the block is written either way.
    pub fn add_data_group(&mut self, prev_dg_id: Option<BlockId>) -> (r: Result<BlockId>)
        requires
            old(self).wf(),
        ensures
            final(self).group_names_map() == old(self).group_names_map(),
            final(self).channel_units_map() == old(self).channel_units_map(),
            final(self).wf(),
            final(self).extends(old(self)),
            forall|x: BlockId| #[trigger] final(self).is_open(x) == old(self).is_open(x),
            final(self).same_layout(*old(self)),
            old(self).linkable(
                match prev_dg_id {
                    Some(p) => p,
                    None => BlockId::Header,
                },
                32,
            ) ==> r is Ok,
            r matches Err(e) ==> e is BlockLinkError,
            r matches Ok(id) ==> id == BlockId::DataGroup(kind_count(old(self).table(), 2) as usize)
                && final(self).linkable(id, 64) && u64_at(
                final(self).bytes(),
                final(self).position_of(
                    match prev_dg_id {
                        Some(p) => p,
                        None => BlockId::Header,
                    },
                )->0 + 24,
            ) == final(self).position_of(id)->0,
            prev_dg_id != Some(BlockId::Identification) ==> final(self).keeps_start(old(self)),
            final(self).cg_kept(old(self)),
    {
        let n = self.count_kind(2);
        let dg_id = BlockId::DataGroup(n);
        let dg_block = DataGroupBlock::default();
        let dg_bytes = match dg_block.to_bytes() {
            Ok(b) => b,
            Err(e) => {
                return Err(e);
            },
        };
        let source = match prev_dg_id {
            Some(p) => p,
            None => BlockId::Header,
        };
        match self.write_and_link(dg_bytes.as_slice(), dg_id, source, 24) {
            Ok(_) => Ok(dg_id),
            Err(e) => Err(e),
        }
    }

    /// Adds the channel group block `cg_block` to data group `dg_id`,
    /// linked from `prev_cg_id` (its next-group link) or, when that is
    /// `None`, from the data group (its first-group link). Fails with
    /// [`Error::BlockSerializationError`] when the block cannot be
    /// serialized, and with [`Error::BlockLinkError`] when the block to link
    /// from cannot be patched.
    pub fn add_channel_group_with_dg(
        &mut self,
        dg_id: BlockId,
        prev_cg_id: Option<BlockId>,
        cg_block: ChannelGroupBlock,
    ) -> (r: Result<BlockId>)
        requires
            old(self).wf(),
        ensures
            final(self).group_names_map() == old(self).group_names_map(),
            final(self).channel_units_map() == old(self).channel_units_map(),
            final(self).wf(),
            final(self).extends(old(self)),
            forall|x: BlockId| #[trigger] final(self).is_open(x) == old(self).is_open(x),
            final(self).same_layout(*old(self)),
            !cg_block.serializable() ==> (r matches Err(e) && e is BlockSerializationError
                && final(self).bytes() == old(self).bytes()),
            cg_block.serializable() && match prev_cg_id {
                Some(p) => old(self).linkable(p, 32),
                None => old(self).linkable(dg_id, 40),
            } ==> r is Ok,
            r matches Ok(id) ==> id == BlockId::ChannelGroup(
                kind_count(old(self).table(), 3) as usize,
            ) && final(self).linkable(id, 104),
            dg_id != BlockId::Identification && prev_cg_id != Some(BlockId::Identification) ==> final(self).keeps_start(old(self)),
            final(self).cg_kept(old(self)),
            r matches Ok(id) ==> (cg_ids_below(old(self).table()) ==> old(self).position_of(id) is None),
    {
        let n = self.count_kind(3);
        let cg_id = BlockId::ChannelGroup(n);
        proof {
            if cg_ids_below(self.table()) && self.position_of(cg_id) is Some {
                assert(n < kind_count(self.table(), 3));
            }
        }
        let cg_bytes = match cg_block.to_bytes() {
            Ok(b) => b,
            Err(e) => {
                proof {
                    self.lemma_same_groups(self);
                }
                return Err(e);
            },
        };
        let (source, offset) = match prev_cg_id {
            Some(p) => (p, 24u64),
            None => (dg_id, 32u64),
        };
        match self.write_and_link(cg_bytes.as_slice(), cg_id, source, offset) {
            Ok(_) => Ok(cg_id),
            Err(e) => Err(e),
        }
    }

    /// Adds a channel group in a new data group: the data group is linked
    /// after the last one added (or from the header) and the channel group
    /// from `prev_cg_id` (or from the new data group). The group starts with
    /// an empty record layout.
    pub fn add_channel_group(&mut self, prev_cg_id: Option<BlockId>, cg_block: ChannelGroupBlock) -> (r: Result<BlockId>)
        requires
            old(self).wf(),
        ensures
            final(self).group_names_map() == old(self).group_names_map(),
            final(self).channel_units_map() == old(self).channel_units_map(),
            final(self).wf(),
            final(self).extends(old(self)),
            forall|x: BlockId| #[trigger] final(self).is_open(x) ==> old(self).is_open(x),
            cg_block.serializable() && (old(self).last_dg_id() is None ==> old(self).linkable(
                BlockId::Header,
                32,
            )) && (prev_cg_id matches Some(p) ==> old(self).linkable(p, 32)) ==> r is Ok,
            r matches Ok(id) ==> id is ChannelGroup && final(self).linkable(id, 104)
                && final(self).has_group(id) && !final(self).is_open(id)
                && final(self).group_layout(id) == Seq::<ChannelLayout>::empty()
                && final(self).group_channel_names(id) == Seq::<Option<Seq<char>>>::empty()
                && final(self).group_record_bytes(id) == 0 && final(self).open_block(id) is None
                && final(self).keeps_other_groups(old(self), id),
            prev_cg_id != Some(BlockId::Identification) ==> final(self).keeps_start(old(self)),
            final(self).cg_kept(old(self)),
            r matches Ok(id) ==> (cg_ids_below(old(self).table()) ==> !old(self).has_group(id)),
    {
        let ghost s0 = *self;
        let last = self.last_dg;
        let dg_id = match self.add_data_group(last) {
            Ok(d) => d,
            Err(e) => {
                return Err(e);
            },
        };
        let ghost sa = *self;
        self.last_dg = Some(dg_id);
        let ghost s1 = *self;
        proof {
            assert(s1.table() == sa.table());
            if let Some(p) = prev_cg_id {
                if s0.linkable(p, 32) {
                    assert(sa.position_of(p) is Some);
                    assert(s1.position_of(p) is Some);
                }
            }
        }
        let cg_id = match self.add_channel_group_with_dg(dg_id, prev_cg_id, cg_block) {
            Ok(c) => c,
            Err(e) => {
                proof {
                    assert(self.groups@ == s0.groups@);
                    assert forall|id: BlockId| s0.position_of(id) is Some implies #[trigger] self.position_of(id) is Some by {
                        assert(sa.position_of(id) is Some);
                        assert(s1.position_of(id) is Some);
                    }
                    self.lemma_same_groups(&s0);
                }
                return Err(e);
            },
        };
        let ghost s2 = *self;
        proof {
            if cg_ids_below(s0.table()) && s0.has_group(cg_id) {
                s0.lemma_group_blocks(cg_id);
                assert(sa.position_of(cg_id) is Some);
                assert(s1.position_of(cg_id) is Some);
            }
        }
        let state = GroupState {
            cg: cg_id,
            dg: dg_id,
            record_bytes: 0,
            channels: Vec::new(),
            names: Ghost(Seq::empty()),
            open: None,
        };
        let ghost mut k: int = 0;
        match self.find_group(cg_id) {
            Some(i) => {
                self.groups.set(i, state);
                proof {
                    k = i as int;
                }
            },
            None => {
                self.groups.push(state);
                proof {
                    k = self.groups@.len() - 1;
                }
            },
        }
        proof {
            assert(self.groups@[k].cg == cg_id);
            assert(self.has_group(cg_id));
            assert forall|id: BlockId| s0.position_of(id) is Some implies #[trigger] self.position_of(id) is Some by {
                assert(sa.position_of(id) is Some);
                assert(s1.position_of(id) is Some);
                assert(s2.position_of(id) is Some);
            }
            assert forall|i: int| 0 <= i < self.groups@.len() implies self.group_wf(#[trigger] self.groups@[i]) by {
                if self.groups@[i] == state {
                } else {
                    assert(exists|j: int| 0 <= j < s2.groups@.len() && s2.groups@[j] == self.groups@[i]);
                    let j = choose|j: int| 0 <= j < s2.groups@.len() && s2.groups@[j] == self.groups@[i];
                    assert(s2.group_wf(s2.groups@[j]));
                }
            }
            assert forall|cg: BlockId| s0.has_group(cg) implies #[trigger] self.has_group(cg) by {
                let i = choose|i: int| 0 <= i < s0.groups@.len() && #[trigger] s0.groups@[i].cg == cg;
                assert(s2.groups@[i].cg == cg);
                if self.groups@[i].cg != cg {
                    assert(self.groups@[i] == state);
                    assert(cg == cg_id);
                }
            }
            assert forall|x: BlockId| #[trigger] self.is_open(x) implies s0.is_open(x) by {
                let i = choose|i: int| 0 <= i < self.groups@.len() && #[trigger] self.groups@[i].cg == x && self.groups@[i].open is Some;
                assert(self.groups@[i] != state);
                assert(s2.groups@[i] == self.groups@[i]);
            }
            assert forall|i: int, j: int| 0 <= i < j < self.groups@.len() implies #[trigger] self.groups@[i].cg != #[trigger] self.groups@[j].cg by {
                if i == k {
                    if j < s2.groups@.len() {
                        assert(s2.groups@[k].cg == cg_id);
                    } else {
                        assert(s2.groups@[i].cg != cg_id);
                    }
                } else if j == k {
                    if j < s2.groups@.len() {
                        assert(s2.groups@[k].cg == cg_id);
                    } else {
                        assert(s2.groups@[i].cg != cg_id);
                    }
                } else {
                    assert(s2.groups@[i] == self.groups@[i]);
                    assert(s2.groups@[j] == self.groups@[j]);
                }
            }
            assert(!self.is_open(cg_id)) by {
                if self.is_open(cg_id) {
                    let i = choose|i: int| 0 <= i < self.groups@.len() && #[trigger] self.groups@[i].cg == cg_id && self.groups@[i].open is Some;
                    assert(self.groups@[i] != state);
                    if i < k {
                        assert(self.groups@[i].cg != self.groups@[k].cg);
                    } else {
                        assert(self.groups@[k].cg != self.groups@[i].cg);
                    }
                }
            }
            self.lemma_group_index(k);
            assert(self.groups@[k].channels@ =~= Seq::<ChannelLayout>::empty());
            assert forall|c: BlockId| c != cg_id && s0.has_group(c) implies #[trigger] self.group_layout(c)
                == s0.group_layout(c) && self.group_record_bytes(c) == s0.group_record_bytes(c)
                && self.open_block(c) == s0.open_block(c) && self.group_data_group(c)
                == s0.group_data_group(c) by {
                let j = choose|j: int| 0 <= j < s0.groups@.len() && #[trigger] s0.groups@[j].cg == c;
                assert(s2.groups@[j] == s0.groups@[j]);
                assert(j != k);
                assert(self.groups@[j] == s0.groups@[j]);
                s0.lemma_group_index(j);
                self.lemma_group_index(j);
            }
        }
        Ok(cg_id)
    }
}

} // verus!

verus! {

/// The bit count a channel is written with: its own, or the typical width
/// of its data type when it has none.
pub open spec fn effective_bit_count(ch: ChannelBlock) -> u32 {
    if ch.bit_count == 0 {
        data_type_default_bits(ch.data_type)
    } else {
        ch.bit_count
    }
}

/// The number of whole bytes that `bit_offset + bit_count` bits occupy.
pub open spec fn bytes_for_bits(bit_offset: u8, bit_count: u32) -> int {
    (bit_offset + bit_count + 7) / 8
}

/// The byte offset a channel is placed at in a group whose channels so far
/// occupy `used` record bytes: its own, or, when that is zero, right after
/// them (as a 32-bit field).
pub open spec fn placed_byte_offset(ch: ChannelBlock, used: u64) -> u32 {
    if ch.byte_offset == 0 {
        used as u32
    } else {
        ch.byte_offset
    }
}

/// The name of channel `ch`, if it has one.
pub open spec fn channel_name_of(ch: ChannelBlock) -> Option<Seq<char>> {
    match ch.name {
        Some(s) => Some(s@),
        None => None,
    }
}

/// The record layout entry of a channel placed at `byte_offset`.
pub open spec fn layout_entry(ch: ChannelBlock, byte_offset: u32) -> ChannelLayout {
    ChannelLayout {
        data_type: ch.data_type,
        byte_offset,
        bit_offset: ch.bit_offset,
        bit_count: effective_bit_count(ch),
    }
}

impl MdfWriter {
    /// Writes a text block holding `text` and records it as `id`. This
    /// never fails.
    fn write_text(&mut self, text: &str, id: BlockId) -> (r: Result<u64>)
        requires
            old(self).wf(),
            text@.len() <= usize::MAX,
            encode_utf8(text@).len() + 32 <= usize::MAX,
            block_span(id) == 0,
        ensures
            final(self).group_names_map() == old(self).group_names_map(),
            final(self).channel_units_map() == old(self).channel_units_map(),
            final(self).cg_kept(old(self)),
            final(self).wf(),
            final(self).extends(old(self)),
            final(self).same_layout(*old(self)),
            forall|x: BlockId| #[trigger] final(self).is_open(x) == old(self).is_open(x),
            r matches Ok(p) && final(self).table() == record_position(old(self).table(), id, p)
                && final(self).position_of(id) == Some(p) && p == old(self).bytes().len() + align_pad(
                old(self).bytes().len() as int,
            ),
            final(self).bytes() == old(self).bytes() + zeros(align_pad(old(self).bytes().len() as int) as nat)
                + text_block_image(text@),
            final(self).keeps_start(old(self)),
    {
        let tx = TextBlock::new(text);
        proof {
            let n = encode_utf8(text@).len();
            assert(text_block_len(encode_utf8(text@)) <= n + 32);
        }
        let bytes = match tx.to_bytes() {
            Ok(b) => b,
            Err(e) => {
                return Err(e);
            },
        };
        let ghost s0 = *self;
        let p = match self.write_block_with_id(bytes.as_slice(), id) {
            Ok(p) => p,
            Err(e) => {
                return Err(e);
            },
        };
        proof {
            self.lemma_recorded(&s0, id, p);
            super::lemma_cg_record(&s0, self, id, p);
        }
        Ok(p)
    }
}

} // verus!

verus! {

impl MdfWriter {
    /// Whether every block but `a` and `b` is recorded where it was in `o`.
    pub open spec fn positions_kept_except(&self, o: &Self, a: BlockId, b: BlockId) -> bool {
        forall|x: BlockId| x != a && x != b ==> #[trigger] self.position_of(x) == o.position_of(x)
    }

    /// Gives `ch` its default bit count and, when group `gi` exists, places
    /// it in that group's record, advancing the bytes the record occupies.
    fn place_channel(&mut self, gi: Option<usize>, cg_id: BlockId, ch: ChannelBlock) -> (r: ChannelBlock)
        requires
            old(self).wf(),
            gi matches Some(i) ==> i < old(self).groups@.len() && old(self).groups@[i as int].cg == cg_id,
            gi is None ==> !old(self).has_group(cg_id),
        ensures
            final(self).group_names_map() == old(self).group_names_map(),
            final(self).channel_units_map() == old(self).channel_units_map(),
            final(self).kept_from(old(self), cg_id),
            final(self).table() == old(self).table(),
            final(self).bytes() == old(self).bytes(),
            final(self).groups@.len() == old(self).groups@.len(),
            forall|j: int| 0 <= j < old(self).groups@.len() ==> (#[trigger] final(self).groups@[j]).cg == old(self).groups@[j].cg,
            r == placed_channel(
                ch,
                if old(self).has_group(cg_id) {
                    Some(old(self).group_record_bytes(cg_id))
                } else {
                    None
                },
            ),
            old(self).has_group(cg_id) ==> final(self).group_record_bytes(cg_id) == r.byte_offset
                + bytes_for_bits(ch.bit_offset, effective_bit_count(ch)) && final(self).group_layout(cg_id)
                == old(self).group_layout(cg_id) && final(self).group_channel_names(cg_id)
                == old(self).group_channel_names(cg_id),
            final(self).keeps_start(old(self)),
    {
        let mut ch = ch;
        if ch.bit_count == 0 {
            ch.bit_count = ch.data_type.default_bits();
        }
        proof {
            self.lemma_kept_same_groups(self, cg_id);
        }
        if let Some(i) = gi {
            let ghost s0 = *self;
            let used = self.groups[i].record_bytes;
            if ch.byte_offset == 0 {
                ch.byte_offset = #[verifier::truncate] (used as u32);
            }
            let bits: u64 = ch.bit_offset as u64 + ch.bit_count as u64;
            self.groups[i].record_bytes = ch.byte_offset as u64 + (bits + 7) / 8;
            proof {
                s0.lemma_group_index(i as int);
                self.lemma_groups_like(&s0);
                self.lemma_group_index(i as int);
                self.lemma_other_groups(&s0, i as int);
                assert(self.kept_from(&s0, cg_id));
            }
        }
        ch
    }

    /// Writes the channel block `ch` as channel `n` and, when it has a
    /// name, a text block holding the name, linked from the channel.
    fn write_channel(&mut self, ch: &ChannelBlock, n: usize) -> (r: Result<u64>)
        requires
            old(self).wf(),
            ch.name matches Some(s) ==> s@.len() <= usize::MAX && encode_utf8(s@).len() + 32
                <= usize::MAX,
        ensures
            final(self).group_names_map() == old(self).group_names_map(),
            final(self).channel_units_map() == old(self).channel_units_map(),
            final(self).cg_kept(old(self)),
            final(self).wf(),
            final(self).extends(old(self)),
            final(self).groups@ == old(self).groups@,
            r is Ok <==> ch.serializable(),
            r matches Err(e) ==> e is BlockSerializationError,
            r matches Ok(p) ==> final(self).position_of(BlockId::Channel(n)) == Some(p)
                && final(self).linkable(BlockId::Channel(n), 160),
            r is Ok && ch.name is Some ==> final(self).position_of(BlockId::ChannelName(n)) is Some,
            final(self).positions_kept_except(old(self), BlockId::Channel(n), BlockId::ChannelName(n)),
            r matches Ok(p) ==> p >= old(self).bytes().len() && final(self).bytes().subrange(p as int, p + 160)
                == (if ch.name is Some {
                with_name_link(*ch, final(self).position_of(BlockId::ChannelName(n))->0)
            } else {
                *ch
            }).spec_bytes(),
            final(self).keeps_start(old(self)),
    {
        let cn_id = BlockId::Channel(n);
        let ghost s0 = *self;
        let cn_bytes = match ch.to_bytes() {
            Ok(b) => b,
            Err(e) => {
                proof {
                    self.lemma_same_groups(&s0);
                }
                return Err(e);
            },
        };
        let cn_pos = match self.write_block_with_id(cn_bytes.as_slice(), cn_id) {
            Ok(p) => p,
            Err(e) => {
                return Err(e);
            },
        };
        let image_len = self.buf.len();
        proof {
            self.lemma_recorded(&s0, cn_id, cn_pos);
            super::lemma_cg_record(&s0, self, cn_id, cn_pos);
            assert(self.bytes().subrange(cn_pos as int, cn_pos + 160) =~= ch.spec_bytes());
            assert forall|x: BlockId| x != cn_id implies #[trigger] self.position_of(x) == s0.position_of(x) by {
                lemma_record_lookup(s0.table(), cn_id, cn_pos, x);
            }
        }
        let ghost s1 = *self;
        if let Some(name) = &ch.name {
            let tx_pos = match self.write_text(name.as_str(), BlockId::ChannelName(n)) {
                Ok(p) => p,
                Err(e) => {
                    return Err(e);
                },
            };
            proof {
                lemma_record_lookup(s1.table(), BlockId::ChannelName(n), tx_pos, cn_id);
                assert forall|x: BlockId| x != BlockId::ChannelName(n) implies #[trigger] self.position_of(x) == s1.position_of(x) by {
                    lemma_record_lookup(s1.table(), BlockId::ChannelName(n), tx_pos, x);
                }
            }
            let ghost sm = *self;
            match self.update_link(cn_pos + 40, tx_pos) {
                Ok(()) => {},
                Err(e) => {
                    return Err(e);
                },
            }
            proof {
                assert forall|id: BlockId| s0.position_of(id) is Some implies #[trigger] self.position_of(id) is Some by {
                    assert(s1.position_of(id) is Some);
                    assert(sm.position_of(id) is Some);
                }
                self.lemma_same_groups(&s0);
                crate::blocks::channel_block::lemma_name_link_bytes(*ch, tx_pos);
                crate::blocks::common::lemma_le_roundtrips();
                assert(sm.bytes().subrange(cn_pos as int, cn_pos + 160) =~= s1.bytes().subrange(cn_pos as int, cn_pos + 160));
                assert(self.bytes().subrange(cn_pos as int, cn_pos + 160) =~= with_name_link(*ch, tx_pos).spec_bytes());
                assert forall|x: BlockId| x != cn_id && x != BlockId::ChannelName(n) implies #[trigger] self.position_of(x)
                    == s0.position_of(x) by {
                    assert(sm.position_of(x) == s1.position_of(x));
                    assert(s1.position_of(x) == s0.position_of(x));
                }
            }
        } else {
            proof {
                assert forall|x: BlockId| x != cn_id && x != BlockId::ChannelName(n) implies #[trigger] self.position_of(x)
                    == s0.position_of(x) by {
                    assert(s1.position_of(x) == s0.position_of(x));
                }
            }
        }
        Ok(cn_pos)
    }

    /// Appends `layout` to the record layout of group `i`.
    fn push_layout(&mut self, i: usize, layout: ChannelLayout, Ghost(name): Ghost<Option<Seq<char>>>)
        requires
            old(self).wf(),
            i < old(self).groups@.len(),
        ensures
            final(self).group_names_map() == old(self).group_names_map(),
            final(self).channel_units_map() == old(self).channel_units_map(),
            final(self).group_channel_names(old(self).groups@[i as int].cg) == old(self).group_channel_names(
                old(self).groups@[i as int].cg,
            ).push(name),
            final(self).kept_from(old(self), old(self).groups@[i as int].cg),
            final(self).bytes() == old(self).bytes(),
            final(self).table() == old(self).table(),
            final(self).group_layout(old(self).groups@[i as int].cg) == old(self).group_layout(
                old(self).groups@[i as int].cg,
            ).push(layout),
            final(self).group_record_bytes(old(self).groups@[i as int].cg)
                == old(self).group_record_bytes(old(self).groups@[i as int].cg),
            final(self).keeps_start(old(self)),
    {
        let ghost s0 = *self;
        self.groups[i].channels.push(layout);
        let ghost names = self.groups@[i as int].names@.push(name);
        self.groups[i].names = Ghost(names);
        proof {
            self.lemma_groups_like(&s0);
            s0.lemma_group_index(i as int);
            self.lemma_group_index(i as int);
            self.lemma_other_groups(&s0, i as int);
            assert(self.kept_from(&s0, s0.groups@[i as int].cg));
        }
    }

    /// Adds channel `ch` to channel group `cg_id`, linked from `prev_cn_id`
    /// (its next-channel link) or, when that is `None`, from the channel
    /// group (its first-channel link). A zero bit count is replaced by the
    /// typical width of the data type. When the group was created by
    /// [`MdfWriter::add_channel_group`], a zero byte offset places the
    /// channel after the group's channels so far, and the channel joins the
    /// group's record layout. A channel name is written as a text block and
    /// linked from the channel. Fails with [`Error::BlockSerializationError`]
    /// when the channel block cannot be serialized and with
    /// [`Error::BlockLinkError`] when the block to link from cannot be
    /// patched.
    pub fn add_channel(&mut self, cg_id: BlockId, prev_cn_id: Option<BlockId>, ch: ChannelBlock) -> (r: Result<BlockId>)
        requires
            old(self).wf(),
            ch.name matches Some(s) ==> s@.len() <= usize::MAX && encode_utf8(s@).len() + 32
                <= usize::MAX,
        ensures
            final(self).group_names_map() == old(self).group_names_map(),
            final(self).channel_units_map() == old(self).channel_units_map(),
            old(self).has_group(cg_id) ==> final(self).group_channel_names(cg_id) == if ch.serializable() {
                old(self).group_channel_names(cg_id).push(channel_name_of(ch))
            } else {
                old(self).group_channel_names(cg_id)
            },
            final(self).cg_kept(old(self)),
            final(self).wf(),
            final(self).extends(old(self)),
            forall|x: BlockId| #[trigger] final(self).is_open(x) == old(self).is_open(x),
            !ch.serializable() ==> (r matches Err(e) && e is BlockSerializationError),
            ch.serializable() && match prev_cn_id {
                Some(p) => old(self).linkable(p, 32),
                None => old(self).linkable(cg_id, 40),
            } ==> r is Ok,
            r matches Err(e) ==> e is BlockSerializationError || e is BlockLinkError,
            r matches Ok(id) ==> id == BlockId::Channel(kind_count(old(self).table(), 4) as usize)
                && final(self).linkable(id, 160) && u64_at(
                final(self).bytes(),
                final(self).position_of(
                    match prev_cn_id {
                        Some(p) => p,
                        None => cg_id,
                    },
                )->0 + (if prev_cn_id is Some {
                    24int
                } else {
                    32int
                }),
            ) == final(self).position_of(id)->0,
            r is Ok && ch.name is Some ==> final(self).position_of(
                BlockId::ChannelName(kind_count(old(self).table(), 4) as usize),
            ) is Some,
            old(self).has_group(cg_id) ==> final(self).group_record_bytes(cg_id)
                == placed_byte_offset(ch, old(self).group_record_bytes(cg_id)) + bytes_for_bits(
                ch.bit_offset,
                effective_bit_count(ch),
            ),
            old(self).has_group(cg_id) ==> final(self).group_layout(cg_id) == if ch.serializable() {
                old(self).group_layout(cg_id).push(
                    layout_entry(ch, placed_byte_offset(ch, old(self).group_record_bytes(cg_id))),
                )
            } else {
                old(self).group_layout(cg_id)
            },
            final(self).keeps_other_groups(old(self), cg_id),
            cg_id != BlockId::Identification && prev_cn_id != Some(BlockId::Identification) ==> final(self).keeps_start(old(self)),
            r matches Ok(id) ==> ({
                let source = match prev_cn_id {
                    Some(p) => p,
                    None => cg_id,
                };
                let placed = placed_channel(
                    ch,
                    if old(self).has_group(cg_id) {
                        Some(old(self).group_record_bytes(cg_id))
                    } else {
                        None
                    },
                );
                let written = if ch.name is Some {
                    with_name_link(
                        placed,
                        final(self).position_of(BlockId::ChannelName(kind_count(old(self).table(), 4) as usize))->0,
                    )
                } else {
                    placed
                };
                old(self).linkable(source, if prev_cn_id is Some { 32 } else { 40 }) && source != id
                    ==> final(self).bytes().subrange(
                    final(self).position_of(id)->0 as int,
                    final(self).position_of(id)->0 + 160,
                ) == written.spec_bytes()
            }),
    {
        let ghost s0 = *self;
        let ghost ch0 = ch;
        let n = self.count_kind(4);
        let cn_id = BlockId::Channel(n);
        let gi = self.find_group(cg_id);
        let ch = self.place_channel(gi, cg_id, ch);
        let ghost s1 = *self;
        let cn_pos = match self.write_channel(&ch, n) {
            Ok(p) => p,
            Err(e) => {
                proof {
                    self.lemma_kept_same_groups(&s1, cg_id);
                    self.lemma_kept_trans(&s1, &s0, cg_id);
                    self.lemma_kept_others(&s0, cg_id);
                    self.lemma_same_groups(&s1);
                }
                return Err(e);
            },
        };
        proof {
            self.lemma_same_groups(&s1);
        }
        proof {
            self.lemma_kept_same_groups(&s1, cg_id);
            self.lemma_kept_trans(&s1, &s0, cg_id);
        }
        let ghost s2 = *self;
        if let Some(i) = gi {
            let layout = ChannelLayout {
                data_type: ch.data_type,
                byte_offset: ch.byte_offset,
                bit_offset: ch.bit_offset,
                bit_count: ch.bit_count,
            };
            self.push_layout(i, layout, Ghost(channel_name_of(ch0)));
            proof {
                self.lemma_kept_trans(&s2, &s0, cg_id);
            }
        }
        let ghost s3 = *self;
        let (source, offset) = match prev_cn_id {
            Some(p) => (p, 24u64),
            None => (cg_id, 32u64),
        };
        proof {
            if s0.linkable(source, offset + 8) {
                assert(self.position_of(source) is Some);
                self.lemma_linkable_patchable(source, offset, 8);
            }
        }
        match self.update_block_link(source, offset, cn_id) {
            Ok(()) => {},
            Err(e) => {
                proof {
                    self.lemma_kept_same_groups(&s3, cg_id);
                    self.lemma_kept_trans(&s3, &s0, cg_id);
                    self.lemma_kept_others(&s0, cg_id);
                }
                return Err(e);
            },
        }
        proof {
            self.lemma_kept_same_groups(&s3, cg_id);
            self.lemma_kept_trans(&s3, &s0, cg_id);
            self.lemma_kept_others(&s0, cg_id);
            super::lemma_splice_u64_at(s3.bytes(), s3.position_of(source)->0 + offset, cn_pos);
            if s0.linkable(source, offset + 8) && source != cn_id {
                lemma_record_entry_before(&s0, source);
                lemma_record_entry_before(&s3, cn_id);
                assert(source != BlockId::ChannelName(n));
                assert(s3.position_of(source) == s0.position_of(source));
                let off = s3.position_of(source)->0 + offset;
                let v = spec_u64_to_le_bytes(cn_pos);
                crate::blocks::common::lemma_le_roundtrips();
                assert(off + 8 <= cn_pos);
                assert(cn_pos + 160 <= s3.bytes().len());
                assert forall|j: int| cn_pos <= j < cn_pos + 160 implies self.bytes()[j] == s3.bytes()[j] by {
                    assert(super::splice(s3.bytes(), off as int, v)[j] == s3.bytes()[j]);
                }
                assert(self.bytes().subrange(cn_pos as int, cn_pos + 160) =~= s3.bytes().subrange(cn_pos as int, cn_pos + 160));
            }
        }
        Ok(cn_id)
    }
}

/// The channel as it is written: with its effective bit count and, when
/// it joins a group whose channels occupy `used` record bytes, placed
/// after them unless it has a byte offset of its own.
pub open spec fn placed_channel(ch: ChannelBlock, used: Option<u64>) -> ChannelBlock {
    ChannelBlock {
        bit_count: effective_bit_count(ch),
        byte_offset: match used {
            Some(u) => placed_byte_offset(ch, u),
            None => ch.byte_offset,
        },
        ..ch
    }
}

} // verus!

verus! {

impl MdfWriter {
    /// Marks channel `cn_id` as the master (time) channel: its channel type
    /// becomes 2 (master) and its sync type 1 (time). Fails with
    /// [`Error::BlockLinkError`] exactly when the channel is not recorded
    /// or its fields lie past the image; nothing is changed then.
    pub fn set_time_channel(&mut self, cn_id: BlockId) -> (r: Result<()>)
        requires
            old(self).wf(),
        ensures
            final(self).group_names_map() == old(self).group_names_map(),
            final(self).channel_units_map() == old(self).channel_units_map(),
            final(self).cg_kept(old(self)),
            final(self).wf(),
            final(self).extends(old(self)),
            final(self).same_layout(*old(self)),
            final(self).table() == old(self).table(),
            r is Ok <==> old(self).patchable(cn_id, CN_SYNC_TYPE_OFFSET, 1),
            r is Ok ==> final(self).bytes() == splice(
                splice(
                    old(self).bytes(),
                    old(self).position_of(cn_id)->0 + CN_CHANNEL_TYPE_OFFSET,
                    seq![2u8],
                ),
                old(self).position_of(cn_id)->0 + CN_SYNC_TYPE_OFFSET,
                seq![1u8],
            ),
            r is Err ==> final(self).bytes() == old(self).bytes(),
            r matches Err(e) ==> e is BlockLinkError,
            cn_id != BlockId::Identification ==> final(self).keeps_start(old(self)),
    {
        let ghost s0 = *self;
        if !self.field_in_image(cn_id, CN_SYNC_TYPE_OFFSET, 1) {
            proof {
                self.lemma_kept_same_groups(self, cn_id);
            }
            return Err(Error::BlockLinkError(crate::text::concat_str("Channel block not found", "")));
        }
        match self.update_block_u8(cn_id, CN_CHANNEL_TYPE_OFFSET, 2) {
            Ok(()) => {},
            Err(e) => {
                return Err(e);
            },
        }
        match self.update_block_u8(cn_id, CN_SYNC_TYPE_OFFSET, 1) {
            Ok(()) => {},
            Err(e) => {
                return Err(e);
            },
        }
        proof {
            self.lemma_kept_same_groups(&s0, cn_id);
        }
        Ok(())
    }

    /// Whether a field of `width` bytes at `field_offset` within block `id`
    /// can be patched.
    fn field_in_image(&self, id: BlockId, field_offset: u64, width: u64) -> (r: bool)
        ensures
            r == self.patchable(id, field_offset, width as int),
    {
        let image_len = self.buf.len();
        match self.get_block_position(id) {
            Some(p) => p <= u64::MAX - field_offset && p + field_offset <= u64::MAX - width && p
                + field_offset + width <= image_len as u64,
            None => false,
        }
    }

    /// Writes `name` as a text block and links it as the acquisition name
    /// of channel group `cg_id`. The text block is written either way;
    /// fails with [`Error::BlockLinkError`] exactly when the group's name
    /// link cannot then be patched.
    pub fn set_channel_group_name(&mut self, cg_id: BlockId, name: &str) -> (r: Result<()>)
        requires
            old(self).wf(),
            name@.len() <= usize::MAX,
            encode_utf8(name@).len() + 32 <= usize::MAX,
        ensures
            r is Ok ==> final(self).group_names_map() == old(self).group_names_map().insert(cg_id, name@),
            final(self).channel_units_map() == old(self).channel_units_map(),
            r is Err ==> final(self).group_names_map() == old(self).group_names_map(),
            final(self).cg_kept(old(self)),
            final(self).wf(),
            final(self).extends(old(self)),
            final(self).same_layout(*old(self)),
            final(self).position_of(BlockId::GroupName(kind_count(old(self).table(), 10) as usize))
                is Some,
            r is Ok <==> final(self).patchable(cg_id, CG_ACQ_NAME_LINK, 8),
            old(self).linkable(cg_id, 48) ==> r is Ok,
            r is Ok ==> u64_at(final(self).bytes(), final(self).position_of(cg_id)->0 + CG_ACQ_NAME_LINK)
                == final(self).position_of(BlockId::GroupName(kind_count(old(self).table(), 10) as usize))->0,
            r matches Err(e) ==> e is BlockLinkError,
            cg_id != BlockId::Identification ==> final(self).keeps_start(old(self)),
            old(self).linkable(cg_id, 48) ==> ({
                let p = final(self).position_of(BlockId::GroupName(kind_count(old(self).table(), 10) as usize))->0;
                final(self).bytes().subrange(p as int, p + text_block_image(name@).len()) == text_block_image(name@)
            }),
    {
        let n = self.count_kind(10);
        let r = self.write_and_link_text(name, BlockId::GroupName(n), cg_id, CG_ACQ_NAME_LINK);
        if r.is_ok() {
            let ghost mid = *self;
            self.group_names = Ghost(self.group_names@.insert(cg_id, name@));
            assert(self.table() == mid.table());
            assert(forall|id: BlockId| #[trigger] self.position_of(id) == mid.position_of(id));
            assert(forall|c: BlockId| #[trigger] self.has_group(c) == mid.has_group(c));
        }
        r
    }

    /// Writes `unit` as a text block and links it as the unit of channel
    /// `cn_id`. The text block is written either way; fails with
    /// [`Error::BlockLinkError`] exactly when the channel's unit link
    /// cannot then be patched.
    pub fn set_channel_unit(&mut self, cn_id: BlockId, unit: &str) -> (r: Result<()>)
        requires
            old(self).wf(),
            unit@.len() <= usize::MAX,
            encode_utf8(unit@).len() + 32 <= usize::MAX,
        ensures
            final(self).group_names_map() == old(self).group_names_map(),
            r is Ok ==> final(self).channel_units_map() == old(self).channel_units_map().insert(cn_id, unit@),
            r is Err ==> final(self).channel_units_map() == old(self).channel_units_map(),
            final(self).cg_kept(old(self)),
            final(self).wf(),
            final(self).extends(old(self)),
            final(self).same_layout(*old(self)),
            final(self).position_of(BlockId::ChannelUnit(kind_count(old(self).table(), 9) as usize))
                is Some,
            r is Ok <==> final(self).patchable(cn_id, CN_UNIT_LINK, 8),
            old(self).linkable(cn_id, 80) ==> r is Ok,
            r is Ok ==> u64_at(final(self).bytes(), final(self).position_of(cn_id)->0 + CN_UNIT_LINK)
                == final(self).position_of(BlockId::ChannelUnit(kind_count(old(self).table(), 9) as usize))->0,
            r matches Err(e) ==> e is BlockLinkError,
            cn_id != BlockId::Identification ==> final(self).keeps_start(old(self)),
            old(self).linkable(cn_id, 80) ==> ({
                let p = final(self).position_of(BlockId::ChannelUnit(kind_count(old(self).table(), 9) as usize))->0;
                final(self).bytes().subrange(p as int, p + text_block_image(unit@).len()) == text_block_image(unit@)
            }),
    {
        let n = self.count_kind(9);
        let r = self.write_and_link_text(unit, BlockId::ChannelUnit(n), cn_id, CN_UNIT_LINK);
        if r.is_ok() {
            let ghost mid = *self;
            self.channel_units = Ghost(self.channel_units@.insert(cn_id, unit@));
            assert(self.table() == mid.table());
            assert(forall|id: BlockId| #[trigger] self.position_of(id) == mid.position_of(id));
            assert(forall|c: BlockId| #[trigger] self.has_group(c) == mid.has_group(c));
        }
        r
    }

    /// Writes `text` as a text block recorded as `id`, then links it from
    /// the field at `link_offset` of block `source`.
    fn write_and_link_text(&mut self, text: &str, id: BlockId, source: BlockId, link_offset: u64) -> (r: Result<()>)
        requires
            old(self).wf(),
            text@.len() <= usize::MAX,
            encode_utf8(text@).len() + 32 <= usize::MAX,
            block_span(id) == 0,
        ensures
            final(self).group_names_map() == old(self).group_names_map(),
            final(self).channel_units_map() == old(self).channel_units_map(),
            final(self).cg_kept(old(self)),
            final(self).wf(),
            final(self).extends(old(self)),
            final(self).same_layout(*old(self)),
            final(self).position_of(id) is Some,
            r is Ok <==> final(self).patchable(source, link_offset, 8),
            old(self).linkable(source, link_offset + 8) ==> r is Ok,
            r is Ok ==> u64_at(final(self).bytes(), final(self).position_of(source)->0 + link_offset)
                == final(self).position_of(id)->0,
            r matches Err(e) ==> e is BlockLinkError,
            source != BlockId::Identification ==> final(self).keeps_start(old(self)),
            old(self).linkable(source, link_offset + 8) ==> final(self).bytes().subrange(
                final(self).position_of(id)->0 as int,
                final(self).position_of(id)->0 + text_block_image(text@).len(),
            ) == text_block_image(text@),
    {
        let ghost s0 = *self;
        let p = match self.write_text(text, id) {
            Ok(p) => p,
            Err(e) => {
                return Err(e);
            },
        };
        let ghost s1 = *self;
        proof {
            lemma_record_lookup(s0.table(), id, p, source);
            if s0.linkable(source, link_offset + 8) {
                assert(s1.position_of(source) is Some);
                s1.lemma_linkable_patchable(source, link_offset, 8);
            }
        }
        let r = self.update_block_link(source, link_offset, id);
        proof {
            self.lemma_kept_same_groups(&s1, id);
            self.lemma_extends_trans(&s1, &s0);
            let img = text_block_image(text@);
            assert(s1.bytes().subrange(p as int, p + img.len()) =~= img);
            if r is Ok {
                super::lemma_splice_u64_at(s1.bytes(), s1.position_of(source)->0 + link_offset, p);
                if s0.linkable(source, link_offset + 8) {
                    lemma_record_entry_before(&s0, source);
                    let off = s1.position_of(source)->0 + link_offset;
                    let v = spec_u64_to_le_bytes(p);
                    crate::blocks::common::lemma_le_roundtrips();
                    assert(off + 8 <= p);
                    assert forall|j: int| p <= j < p + img.len() implies self.bytes()[j] == s1.bytes()[j] by {
                        assert(super::splice(s1.bytes(), off as int, v)[j] == s1.bytes()[j]);
                    }
                    assert(self.bytes().subrange(p as int, p + img.len()) =~= img);
                }
            }
        }
        r
    }
}

} // verus!

verus! {

/// The text block of a value-to-text conversion `n` holding entry `i` of
/// a mapping of `len` entries, or its default text past them.
pub open spec fn conversion_text_id(n: usize, i: int, len: int) -> BlockId {
    if i < len {
        BlockId::ConversionText(n, i as usize)
    } else {
        BlockId::ConversionDefaultText(n)
    }
}

/// Whether the image `b` holds a text block with text `t` at `p`.
pub open spec fn holds_text(b: Seq<u8>, p: u64, t: Seq<char>) -> bool {
    &&& p + text_block_image(t).len() <= b.len()
    &&& b.subrange(p as int, p + text_block_image(t).len()) == text_block_image(t)
}

/// The text of entry `i` of `mapping`, or `default_text` past its end.
pub open spec fn mapping_text(mapping: Seq<(i64, &str)>, default_text: &str, i: int) -> Seq<char> {
    if i < mapping.len() {
        mapping[i].1@
    } else {
        default_text@
    }
}

/// Text images held in an image stay held when bytes are appended.
proof fn lemma_appended_keeps(
    b: Seq<u8>,
    b2: Seq<u8>,
    refs: Seq<u64>,
    i: int,
    mapping: Seq<(i64, &str)>,
    default_text: &str,
)
    requires
        b2.len() >= b.len(),
        b2.subrange(0, b.len() as int) == b,
        0 <= i <= refs.len(),
        forall|k: int|
            0 <= k < i ==> #[trigger] refs[k] + text_block_image(mapping_text(mapping, default_text, k)).len()
                <= b.len() && b.subrange(
                refs[k] as int,
                refs[k] + text_block_image(mapping_text(mapping, default_text, k)).len(),
            ) == text_block_image(mapping_text(mapping, default_text, k)),
    ensures
        forall|k: int|
            0 <= k < i ==> #[trigger] refs[k] + text_block_image(mapping_text(mapping, default_text, k)).len()
                <= b2.len() && b2.subrange(
                refs[k] as int,
                refs[k] + text_block_image(mapping_text(mapping, default_text, k)).len(),
            ) == text_block_image(mapping_text(mapping, default_text, k)),
{
    assert forall|k: int| 0 <= k < i implies #[trigger] refs[k] + text_block_image(mapping_text(mapping, default_text, k)).len()
        <= b2.len() && b2.subrange(
        refs[k] as int,
        refs[k] + text_block_image(mapping_text(mapping, default_text, k)).len(),
    ) == text_block_image(mapping_text(mapping, default_text, k)) by {
        let e = refs[k] + text_block_image(mapping_text(mapping, default_text, k)).len();
        assert(b2.subrange(refs[k] as int, e) =~= b.subrange(refs[k] as int, e)) by {
            assert forall|j: int| 0 <= j < e - refs[k] implies b2.subrange(refs[k] as int, e)[j] == b.subrange(refs[k] as int, e)[j] by {
                assert(b2.subrange(0, b.len() as int)[refs[k] + j] == b[refs[k] + j]);
            }
        }
    }
}

/// Whether the text of each entry of `mapping` and `default_text` can be
/// written (their UTF-8 lengths leave room for a block header).
pub open spec fn texts_fit(mapping: Seq<(i64, &str)>, default_text: &str) -> bool {
    &&& forall|i: int|
        0 <= i < mapping.len() ==> (#[trigger] mapping[i]).1@.len() <= usize::MAX && encode_utf8(
            mapping[i].1@,
        ).len() + 32 <= usize::MAX
    &&& default_text@.len() <= usize::MAX
    &&& encode_utf8(default_text@).len() + 32 <= usize::MAX
}

impl MdfWriter {
    /// Writes a text block for each entry of `mapping` (recorded as
    /// `ConversionText(n, i)`) and one for `default_text` (recorded as
    /// `ConversionDefaultText(n)`), and returns their positions in that
    /// order.
    fn write_mapping_texts(&mut self, mapping: &[(i64, &str)], default_text: &str, n: usize) -> (r: Result<Vec<u64>>)
        requires
            old(self).wf(),
            texts_fit(mapping@, default_text),
        ensures
            final(self).group_names_map() == old(self).group_names_map(),
            final(self).channel_units_map() == old(self).channel_units_map(),
            final(self).cg_kept(old(self)),
            final(self).wf(),
            final(self).extends(old(self)),
            final(self).same_layout(*old(self)),
            final(self).keeps_start(old(self)),
            forall|x: BlockId|
                !(x is ConversionText) && !(x is ConversionDefaultText) ==> #[trigger] final(self).position_of(x)
                    == old(self).position_of(x),
            r matches Ok(refs) && refs@.len() == mapping@.len() + 1 && (forall|i: int|
                0 <= i < mapping@.len() ==> final(self).position_of(BlockId::ConversionText(n, i as usize))
                    == Some(#[trigger] refs@[i])) && final(self).position_of(BlockId::ConversionDefaultText(n))
                == Some(refs@[mapping@.len() as int]),
            r matches Ok(refs) ==> forall|i: int|
                0 <= i <= mapping@.len() ==> old(self).bytes().len() <= #[trigger] refs@[i] && refs@[i]
                    + text_block_image(mapping_text(mapping@, default_text, i)).len() <= final(self).bytes().len()
                    && final(self).bytes().subrange(
                    refs@[i] as int,
                    refs@[i] + text_block_image(mapping_text(mapping@, default_text, i)).len(),
                ) == text_block_image(mapping_text(mapping@, default_text, i)),
    {
        let ghost s0 = *self;
        let mut refs: Vec<u64> = Vec::new();
        let mut i: usize = 0;
        while i < mapping.len()
            invariant
                self.group_names_map() == old(self).group_names_map(),
                self.channel_units_map() == old(self).channel_units_map(),
                self.wf(),
                self.extends(&s0),
                self.same_layout(s0),
                self.keeps_start(&s0),
                self.cg_kept(&s0),
                texts_fit(mapping@, default_text),
                i <= mapping@.len(),
                refs@.len() == i,
                forall|k: int| 0 <= k < i ==> self.position_of(BlockId::ConversionText(n, k as usize)) == Some(#[trigger] refs@[k]),
                forall|x: BlockId|
                    !(x is ConversionText) && !(x is ConversionDefaultText) ==> #[trigger] self.position_of(x)
                        == s0.position_of(x),
                forall|k: int|
                    0 <= k < i ==> s0.bytes().len() <= #[trigger] refs@[k] && refs@[k] + text_block_image(
                        mapping_text(mapping@, default_text, k),
                    ).len() <= self.bytes().len() && self.bytes().subrange(
                        refs@[k] as int,
                        refs@[k] + text_block_image(mapping_text(mapping@, default_text, k)).len(),
                    ) == text_block_image(mapping_text(mapping@, default_text, k)),
            decreases mapping@.len() - i,
        {
            let ghost sm = *self;
            let id = BlockId::ConversionText(n, i);
            let (_, text) = mapping[i];
            let p = match self.write_text(text, id) {
                Ok(p) => p,
                Err(e) => {
                    return Err(e);
                },
            };
            proof {
                assert(self.bytes().subrange(0, sm.bytes().len() as int) =~= sm.bytes());
                lemma_appended_keeps(sm.bytes(), self.bytes(), refs@, i as int, mapping@, default_text);
                let img = text_block_image(text@);
                assert(self.bytes().subrange(p as int, p + img.len()) =~= img);
                assert(mapping_text(mapping@, default_text, i as int) == text@);
                assert forall|x: BlockId| #[trigger] self.position_of(x) == if x == id { Some(p) } else { sm.position_of(x) } by {
                    lemma_record_lookup(sm.table(), id, p, x);
                }
                self.lemma_extends_trans(&sm, &s0);
                self.lemma_same_layout_trans(&sm, &s0);
            }
            refs.push(p);
            i = i + 1;
        }
        let ghost sm = *self;
        let id = BlockId::ConversionDefaultText(n);
        let p = match self.write_text(default_text, id) {
            Ok(p) => p,
            Err(e) => {
                return Err(e);
            },
        };
        proof {
            assert(self.bytes().subrange(0, sm.bytes().len() as int) =~= sm.bytes());
            lemma_appended_keeps(sm.bytes(), self.bytes(), refs@, mapping@.len() as int, mapping@, default_text);
            let img = text_block_image(default_text@);
            assert(self.bytes().subrange(p as int, p + img.len()) =~= img);
            assert(mapping_text(mapping@, default_text, mapping@.len() as int) == default_text@);
            assert forall|x: BlockId| #[trigger] self.position_of(x) == if x == id { Some(p) } else { sm.position_of(x) } by {
                lemma_record_lookup(sm.table(), id, p, x);
            }
            self.lemma_extends_trans(&sm, &s0);
            self.lemma_same_layout_trans(&sm, &s0);
        }
        refs.push(p);
        Ok(refs)
    }

    /// `same_layout` is transitive.
    pub proof fn lemma_same_layout_trans(&self, mid: &Self, o: &Self)
        requires
            self.same_layout(*mid),
            mid.same_layout(*o),
        ensures
            self.same_layout(*o),
    {
    }

    /// Writes a value-to-text conversion: a text block for each entry of
    /// `mapping` and one for `default_text`, then the conversion block
    /// (recorded as `Conversion(n)`, `n` the number of conversions recorded
    /// so far) whose references are those texts, default last, and whose
    /// values are the mapping's integers as binary64 numbers. When
    /// `channel_id` is given, the channel's conversion link is set to it;
    /// that fails with [`Error::BlockLinkError`] when the channel's link
    /// cannot be patched, the blocks being written either way. Returns the
    /// conversion's identifier and position.
    pub fn add_value_to_text_conversion(
        &mut self,
        mapping: &[(i64, &str)],
        default_text: &str,
        channel_id: Option<BlockId>,
    ) -> (r: Result<(BlockId, u64)>)
        requires
            old(self).wf(),
            texts_fit(mapping@, default_text),
            16 * mapping@.len() + 128 <= usize::MAX,
        ensures
            final(self).group_names_map() == old(self).group_names_map(),
            final(self).channel_units_map() == old(self).channel_units_map(),
            final(self).cg_kept(old(self)),
            final(self).wf(),
            final(self).extends(old(self)),
            final(self).same_layout(*old(self)),
            channel_id != Some(BlockId::Identification) ==> final(self).keeps_start(old(self)),
            channel_id is None ==> r is Ok,
            channel_id matches Some(c) && old(self).linkable(c, 64) ==> r is Ok,
            r matches Err(e) ==> e is BlockLinkError,
            r matches Ok((id, pos)) ==> ({
                let cn = kind_count(old(self).table(), 5) as usize;
                let len = mapping@.len();
                &&& id == BlockId::Conversion(cn)
                &&& final(self).position_of(id) == Some(pos)
                &&& forall|i: int| 0 <= i < len ==> #[trigger] final(self).position_of(BlockId::ConversionText(cn, i as usize)) is Some
                &&& final(self).position_of(BlockId::ConversionDefaultText(cn)) is Some
                &&& channel_id matches Some(c) ==> u64_at(final(self).bytes(), final(self).position_of(c)->0 + 56) == pos
                &&& (channel_id matches Some(c) ==> old(self).linkable(c, 64)) ==> exists|cb: ConversionBlock|
                    #[trigger] cb.spec_bytes() == final(self).bytes().subrange(pos as int, pos + cb.spec_size())
                    && cb.header.id@ == crate::blocks::conversion::cc_id() && cb.header.reserved0 == 0
                    && cb.cc_tx_name is None && cb.cc_md_unit is None && cb.cc_md_comment is None
                    && cb.cc_cc_inverse is None && cb.cc_type == ConversionType::ValueToText
                    && cb.cc_precision == 0 && cb.cc_flags == 2 && cb.cc_ref_count == (len + 1) as u16
                    && cb.cc_val_count == len as u16 && cb.cc_phy_range_min == Some(0u64)
                    && cb.cc_phy_range_max == Some(0u64) && cb.cc_ref@.len() == len + 1 && (forall|i: int|
                    0 <= i < len ==> Some(#[trigger] cb.cc_ref@[i]) == final(self).position_of(
                        BlockId::ConversionText(cn, i as usize),
                    )) && Some(cb.cc_ref@[len as int]) == final(self).position_of(
                    BlockId::ConversionDefaultText(cn),
                ) && cb.cc_val@.len() == len && (forall|i: int|
                    0 <= i < len ==> -0x20_0000_0000_0000 < mapping@[i].0 < 0x20_0000_0000_0000
                        ==> f64_holds_int(#[trigger] cb.cc_val@[i], mapping@[i].0 as int))
                &&& (channel_id matches Some(c) ==> old(self).linkable(c, 64)) ==> forall|i: int|
                    0 <= i <= len ==> #[trigger] holds_text(
                        final(self).bytes(),
                        final(self).position_of(conversion_text_id(cn, i, len as int))->0,
                        mapping_text(mapping@, default_text, i),
                    )
            }),
    {
        let ghost s0 = *self;
        let n = self.count_kind(5);
        let cc_id = BlockId::Conversion(n);
        let refs = match self.write_mapping_texts(mapping, default_text, n) {
            Ok(rs) => rs,
            Err(e) => {
                return Err(e);
            },
        };
        let ghost s1 = *self;
        let ghost refs_view = refs@;
        let mut vals: Vec<u64> = Vec::new();
        let mut i: usize = 0;
        while i < mapping.len()
            invariant
                self.group_names_map() == old(self).group_names_map(),
                self.channel_units_map() == old(self).channel_units_map(),
                i <= mapping@.len(),
                vals@.len() == i,
                forall|k: int|
                    0 <= k < i ==> -0x20_0000_0000_0000 < mapping@[k].0 < 0x20_0000_0000_0000 ==> f64_holds_int(
                        #[trigger] vals@[k],
                        mapping@[k].0 as int,
                    ),
            decreases mapping@.len() - i,
        {
            let (v, _) = mapping[i];
            vals.push(i64_to_f64_bits(v));
            i = i + 1;
        }
        let block = ConversionBlock {
            header: BlockHeader {
                id: String::from_str(ConversionBlock::block_id()),
                reserved0: 0,
                block_len: 0,
                links_nr: 0,
            },
            cc_tx_name: None,
            cc_md_unit: None,
            cc_md_comment: None,
            cc_cc_inverse: None,
            cc_ref: refs,
            cc_type: ConversionType::ValueToText,
            cc_precision: 0,
            cc_flags: 2,
            cc_ref_count: #[verifier::truncate] ((mapping.len() + 1) as u16),
            cc_val_count: #[verifier::truncate] (mapping.len() as u16),
            cc_phy_range_min: Some(0),
            cc_phy_range_max: Some(0),
            cc_val: vals,
            formula: None,
            resolved_texts: None,
            resolved_conversions: None,
            default_conversion: None,
        };
        let cc_bytes = match block.to_bytes() {
            Ok(b) => b,
            Err(e) => {
                return Err(e);
            },
        };
        let pos = match self.write_block_with_id(cc_bytes.as_slice(), cc_id) {
            Ok(p) => p,
            Err(e) => {
                return Err(e);
            },
        };
        let ghost s2 = *self;
        proof {
            self.lemma_recorded(&s1, cc_id, pos);
            super::lemma_cg_record(&s1, self, cc_id, pos);
            self.lemma_extends_trans(&s1, &s0);
            assert forall|x: BlockId| x != cc_id implies #[trigger] self.position_of(x) == s1.position_of(x) by {
                lemma_record_lookup(s1.table(), cc_id, pos, x);
            }
            assert(self.bytes().subrange(pos as int, pos + block.spec_size()) =~= block.spec_bytes());
        }
        if let Some(cn) = channel_id {
            proof {
                if s0.linkable(cn, 64) {
                    assert(self.position_of(cn) == s0.position_of(cn));
                    self.lemma_linkable_patchable(cn, 56, 8);
                }
            }
            match self.update_block_link(cn, 56, cc_id) {
                Ok(()) => {},
                Err(e) => {
                    proof {
                        self.lemma_kept_same_groups(&s2, cc_id);
                        self.lemma_extends_trans(&s2, &s0);
                    }
                    return Err(e);
                },
            }
            proof {
                self.lemma_kept_same_groups(&s2, cc_id);
                self.lemma_extends_trans(&s2, &s0);
                super::lemma_splice_u64_at(s2.bytes(), s2.position_of(cn)->0 + 56, pos);
                if s0.linkable(cn, 64) {
                    lemma_record_entry_before(&s0, cn);
                    assert(s2.position_of(cn) == s0.position_of(cn));
                    assert(s0.bytes().len() <= pos);
                    assert(s2.position_of(cn)->0 + 64 <= pos);
                    let off = s2.position_of(cn)->0 + 56;
                    let v = vstd::bytes::spec_u64_to_le_bytes(pos);
                    crate::blocks::common::lemma_le_roundtrips();
                    assert(v.len() == 8);
                    assert(self.bytes() == super::splice(s2.bytes(), off as int, v));
                    assert(pos + block.spec_size() <= s2.bytes().len());
                    assert forall|j: int| pos <= j < pos + block.spec_size() implies self.bytes()[j] == s2.bytes()[j] by {
                        assert(super::splice(s2.bytes(), off as int, v)[j] == s2.bytes()[j]);
                    }
                    assert(self.bytes().subrange(pos as int, pos + block.spec_size()) =~= s2.bytes().subrange(pos as int, pos + block.spec_size()));
                    assert forall|j: int| s0.bytes().len() <= j < s2.bytes().len() implies #[trigger] self.bytes()[j] == s2.bytes()[j] by {
                        assert(super::splice(s2.bytes(), off as int, v)[j] == s2.bytes()[j]);
                    }
                }
            }
        }
        proof {
            let len = mapping@.len();
            assert(cc_id == BlockId::Conversion(kind_count(s0.table(), 5) as usize));
            assert(self.position_of(cc_id) == Some(pos));
            assert forall|i: int| 0 <= i < len implies #[trigger] self.position_of(BlockId::ConversionText(n, i as usize)) == Some(block.cc_ref@[i]) by {
                assert(s1.position_of(BlockId::ConversionText(n, i as usize)) == Some(refs@[i]));
                assert(s2.position_of(BlockId::ConversionText(n, i as usize)) == Some(refs@[i]));
            }
            assert(self.position_of(BlockId::ConversionDefaultText(n)) == Some(block.cc_ref@[len as int]));
            if channel_id matches Some(c) ==> s0.linkable(c, 64) {
                assert forall|i: int| 0 <= i <= len implies #[trigger] holds_text(
                    self.bytes(),
                    self.position_of(conversion_text_id(n, i, len as int))->0,
                    mapping_text(mapping@, default_text, i),
                ) by {
                    let t = mapping_text(mapping@, default_text, i);
                    let img = text_block_image(t);
                    let r = refs_view[i];
                    assert(s0.bytes().len() <= r && r + img.len() <= s1.bytes().len());
                    assert(s1.bytes().subrange(r as int, r + img.len()) == img);
                    assert(self.position_of(conversion_text_id(n, i, len as int)) == Some(r));
                    assert forall|j: int| 0 <= j < img.len() implies #[trigger] self.bytes().subrange(r as int, r + img.len())[j] == img[j] by {
                        assert(s2.bytes()[r + j] == s1.bytes()[r + j]);
                        assert(self.bytes()[r + j] == s2.bytes()[r + j]);
                        assert(s1.bytes().subrange(r as int, r + img.len())[j] == img[j]);
                    }
                    assert(self.bytes().subrange(r as int, r + img.len()) =~= img);
                }
                assert(block.spec_bytes() == self.bytes().subrange(pos as int, pos + block.spec_size()));
                assert(block.cc_ref_count == (len + 1) as u16);
                assert(block.cc_val_count == len as u16);
                assert(block.header.id@ == crate::blocks::conversion::cc_id());
            }
        }
        Ok((cc_id, pos))
    }
}

/// A block recorded in a consistent writer ends within the image.
proof fn lemma_record_entry_before(w: &MdfWriter, id: BlockId)
    requires
        w.wf(),
        w.position_of(id) is Some,
    ensures
        w.position_of(id)->0 + block_span(id) <= w.bytes().len(),
{
    super::lemma_lookup_entry(w.table(), id);
    let i = choose|i: int| 0 <= i < w.block_positions@.len() && #[trigger] w.block_positions@[i] == (id, lookup(w.block_positions@, id)->0);
    assert(w.block_positions@[i].1 + block_span(w.block_positions@[i].0) <= w.buf@.len());
}

} // verus!

verus! {

impl MdfWriter {
    /// The little-endian `u32` stored at `offset` of the image.
    fn image_u32(&self, offset: u64) -> (r: u32)
        requires
            offset + 4 <= self.bytes().len(),
        ensures
            r == u32_at(self.bytes(), offset as int),
    {
        let image_len = self.buf.len();
        crate::blocks::common::read_u32_at(self.buf.as_slice(), offset as usize)
    }

    /// Writes `conversion` as a conversion block (recorded as
    /// `Conversion(n)`, `n` the number of conversions recorded so far) and
    /// links it as the conversion of channel `cn_id`. The block is written
    /// either way; fails with [`Error::BlockLinkError`] when the channel's
    /// link cannot be patched.
    pub fn set_channel_conversion(&mut self, cn_id: BlockId, conversion: &ConversionBlock) -> (r: Result<()>)
        requires
            old(self).wf(),
            conversion.spec_size() <= usize::MAX,
        ensures
            final(self).group_names_map() == old(self).group_names_map(),
            final(self).channel_units_map() == old(self).channel_units_map(),
            final(self).cg_kept(old(self)),
            final(self).wf(),
            final(self).extends(old(self)),
            final(self).same_layout(*old(self)),
            cn_id != BlockId::Identification ==> final(self).keeps_start(old(self)),
            final(self).position_of(BlockId::Conversion(kind_count(old(self).table(), 5) as usize)) is Some,
            old(self).linkable(cn_id, 64) ==> r is Ok,
            r matches Err(e) ==> e is BlockLinkError,
            r is Ok ==> u64_at(final(self).bytes(), final(self).position_of(cn_id)->0 + 56)
                == final(self).position_of(BlockId::Conversion(kind_count(old(self).table(), 5) as usize))->0,
            old(self).linkable(cn_id, 64) && cn_id != BlockId::Conversion(kind_count(old(self).table(), 5) as usize)
                ==> ({
                let p = final(self).position_of(BlockId::Conversion(kind_count(old(self).table(), 5) as usize))->0;
                final(self).bytes().subrange(p as int, p + conversion.spec_size()) == conversion.spec_bytes()
            }),
    {
        let n = self.count_kind(5);
        let bytes = match conversion.to_bytes() {
            Ok(b) => b,
            Err(e) => {
                return Err(e);
            },
        };
        match self.write_and_link(bytes.as_slice(), BlockId::Conversion(n), cn_id, 56) {
            Ok(_) => Ok(()),
            Err(e) => Err(e),
        }
    }

    /// Sets the limits of channel `cn_id` (binary64 bit patterns of the
    /// lower and upper limit) and marks its limit range as valid (flag bit
    /// 3). Fails with [`Error::BlockLinkError`], changing nothing, when the
    /// channel is not recorded or its fields lie past the image.
    pub fn set_channel_limits(&mut self, cn_id: BlockId, lower: u64, upper: u64) -> (r: Result<()>)
        requires
            old(self).wf(),
        ensures
            final(self).group_names_map() == old(self).group_names_map(),
            final(self).channel_units_map() == old(self).channel_units_map(),
            final(self).cg_kept(old(self)),
            final(self).wf(),
            final(self).extends(old(self)),
            final(self).same_layout(*old(self)),
            final(self).table() == old(self).table(),
            cn_id != BlockId::Identification ==> final(self).keeps_start(old(self)),
            r is Ok <==> old(self).patchable(cn_id, 136, 8),
            r is Err ==> final(self).bytes() == old(self).bytes(),
            r matches Err(e) ==> e is BlockLinkError,
            r is Ok ==> ({
                let p = old(self).position_of(cn_id)->0;
                let b = old(self).bytes();
                final(self).bytes() == splice(
                    splice(splice(b, p + 128, spec_u64_to_le_bytes(lower)), p + 136, spec_u64_to_le_bytes(upper)),
                    p + 100,
                    spec_u32_to_le_bytes(u32_at(b, p + 100) | 8),
                )
            }),
    {
        let ghost s0 = *self;
        if !self.field_in_image(cn_id, 136, 8) {
            proof {
                self.lemma_kept_same_groups(self, cn_id);
            }
            return Err(Error::BlockLinkError(crate::text::concat_str("Channel block not found", "")));
        }
        let p = match self.get_block_position(cn_id) {
            Some(p) => p,
            None => {
                return Err(Error::BlockLinkError(crate::text::concat_str("Channel block not found", "")));
            },
        };
        let image_len = self.buf.len();
        let flags = self.image_u32(p + 100);
        match self.update_block_u64(cn_id, 128, lower) {
            Ok(()) => {},
            Err(e) => {
                return Err(e);
            },
        }
        let ghost s1 = *self;
        match self.update_block_u64(cn_id, 136, upper) {
            Ok(()) => {},
            Err(e) => {
                return Err(e);
            },
        }
        let ghost s2 = *self;
        match self.update_block_u32(cn_id, 100, flags | 8) {
            Ok(()) => {},
            Err(e) => {
                return Err(e);
            },
        }
        proof {
            self.lemma_kept_same_groups(&s0, cn_id);
        }
        Ok(())
    }

    /// Names the source of channel group `cg_id`: writes `name` as a text
    /// block (recorded as `SourceName(n)`), a source information block
    /// naming it (recorded as `Source(n)`, an ECU on a CAN bus) and links
    /// that as the group's acquisition source. The blocks are written
    /// either way; fails with [`Error::BlockLinkError`] when the group's
    /// link cannot be patched.
    pub fn set_channel_group_source_name(&mut self, cg_id: BlockId, name: &str) -> (r: Result<()>)
        requires
            old(self).wf(),
            name@.len() <= usize::MAX,
            encode_utf8(name@).len() + 32 <= usize::MAX,
        ensures
            final(self).group_names_map() == old(self).group_names_map(),
            final(self).channel_units_map() == old(self).channel_units_map(),
            final(self).cg_kept(old(self)),
            final(self).wf(),
            final(self).extends(old(self)),
            final(self).same_layout(*old(self)),
            cg_id != BlockId::Identification ==> final(self).keeps_start(old(self)),
            final(self).position_of(BlockId::SourceName(kind_count(old(self).table(), 13) as usize)) is Some,
            final(self).position_of(BlockId::Source(kind_count(old(self).table(), 13) as usize)) is Some,
            old(self).linkable(cg_id, 56) ==> r is Ok,
            r matches Err(e) ==> e is BlockLinkError,
            r is Ok ==> u64_at(final(self).bytes(), final(self).position_of(cg_id)->0 + CG_ACQ_SOURCE_LINK)
                == final(self).position_of(BlockId::Source(kind_count(old(self).table(), 13) as usize))->0,
    {
        let ghost s0 = *self;
        let n = self.count_kind(13);
        let name_pos = match self.write_text(name, BlockId::SourceName(n)) {
            Ok(p) => p,
            Err(e) => {
                return Err(e);
            },
        };
        let ghost s1 = *self;
        let si = crate::blocks::source_block::source_block_to_bytes(name_pos, 1, 2, 0);
        let r = self.write_and_link(si.as_slice(), BlockId::Source(n), cg_id, CG_ACQ_SOURCE_LINK);
        proof {
            lemma_record_lookup(s0.table(), BlockId::SourceName(n), name_pos, cg_id);
            self.lemma_extends_trans(&s1, &s0);
            self.lemma_same_layout_trans(&s1, &s0);
            assert(kind_count(s0.table(), 13) == n);
            if self.position_of(BlockId::SourceName(n)) is None {
                assert(false);
            }
        }
        match r {
            Ok(_) => Ok(()),
            Err(e) => Err(e),
        }
    }
}

} // verus!
