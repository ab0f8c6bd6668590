//! Logging raw CAN frames into an MDF image, without signal decoding.
//!
//! Each CAN ID (or, when grouping is switched off, every ID together) gets
//! a channel group with channels for the timestamp (microseconds), the
//! CAN ID, the data length code, the CAN FD flags and one channel per data
//! byte (at least 8, up to 64 for CAN FD).
use super::fd::{len_to_dlc, spec_len_to_dlc, FdFlags, MAX_FD_DATA_LEN};
use crate::blocks::{ChannelBlock, ChannelGroupBlock, DataType};
use crate::error::Result;
use crate::text::{concat_str, decimal_chars, decimal_string, hex_chars, hex_string, lemma_decimal_chars_short, lemma_encode_utf8_len, lemma_hex_chars_len, pow16};
use crate::blocks::identification_block::default_identification_bytes;
use crate::writer::data::{layout_end, DecodedValue};
use crate::writer::{cg_ids_below, kind_count, lemma_record_lookup, record_position, splice, BlockId, MdfWriter, OpenDataBlock};
use crate::writer::data::{finished_image, open_dt_header};
use crate::blocks::common::zeros;
use super::raw_record::{
    lemma_encode_values_prefix, lemma_raw_layout_end, lemma_raw_record_encoding, lemma_raw_records_len,
    holds_records, lemma_holds_records_from, lemma_holds_records_kept, lemma_raw_values_prefix, raw_entry,
    raw_layout, raw_record_values, raw_records,
};
use vstd::bytes::*;
use vstd::prelude::*;

verus! {

/// A buffered raw CAN frame.
pub struct RawFrame {
    /// Timestamp in microseconds
    pub timestamp_us: u64,
    /// Data length code
    pub dlc: u8,
    /// The payload kept (at most 64 bytes)
    pub data: Vec<u8>,
    /// CAN FD flags
    pub fd_flags: FdFlags,
}

impl View for RawFrame {
    type V = (u64, u8, Seq<u8>, FdFlags);

    open spec fn view(&self) -> (u64, u8, Seq<u8>, FdFlags) {
        (self.timestamp_us, self.dlc, self.data@, self.fd_flags)
    }
}

/// The first `n` bytes of `data`, or all of them when there are fewer.
pub open spec fn prefix(data: Seq<u8>, n: int) -> Seq<u8> {
    if data.len() <= n {
        data
    } else {
        data.subrange(0, n)
    }
}

/// Copies at most `max` bytes of `data`.
fn copy_prefix(data: &[u8], max: usize) -> (r: Vec<u8>)
    ensures
        r@ == prefix(data@, max as int),
{
    let len = if data.len() < max {
        data.len()
    } else {
        max
    };
    let mut out: Vec<u8> = Vec::with_capacity(len);
    let mut i: usize = 0;
    while i < len
        invariant
            i <= len,
            len <= data@.len(),
            len == if data@.len() < max { data@.len() as int } else { max as int },
            out@ == data@.subrange(0, i as int),
        decreases len - i,
    {
        out.push(data[i]);
        i = i + 1;
        assert(out@ =~= data@.subrange(0, i as int));
    }
    assert(out@ =~= prefix(data@, max as int));
    out
}

impl RawFrame {
    /// A classic CAN frame: at most 8 payload bytes are kept, and no FD
    /// flag is set.
    fn new_classic(timestamp_us: u64, dlc: u8, data: &[u8]) -> (r: Self)
        ensures
            r@ == (timestamp_us, dlc, prefix(data@, 8), r.fd_flags),
            !r.fd_flags.spec_brs() && !r.fd_flags.spec_esi(),
    {
        RawFrame { timestamp_us, dlc, data: copy_prefix(data, 8), fd_flags: FdFlags::default() }
    }

    /// A CAN FD frame: at most 64 payload bytes are kept.
    fn new_fd(timestamp_us: u64, dlc: u8, data: &[u8], flags: FdFlags) -> (r: Self)
        ensures
            r@ == (timestamp_us, dlc, prefix(data@, MAX_FD_DATA_LEN as int), flags),
    {
        RawFrame { timestamp_us, dlc, data: copy_prefix(data, MAX_FD_DATA_LEN), fd_flags: flags }
    }
}

/// Whether the channel group block and the data group block of each group
/// of `cgs` are recorded in `w` and end at or below `bound`.
pub open spec fn groups_below_in(cgs: Seq<(u32, BlockId)>, w: MdfWriter, bound: int) -> bool {
    forall|k: int|
        0 <= k < cgs.len() ==> w.position_of(#[trigger] cgs[k].1) is Some && w.position_of(cgs[k].1)->0
            + 104 <= bound && w.position_of(w.group_data_group(cgs[k].1)) is Some && w.position_of(
            w.group_data_group(cgs[k].1),
        )->0 + 64 <= bound
}

/// Recording a data block, or nothing, leaves the group blocks where they
/// were.
pub(crate) proof fn lemma_groups_below_kept(cgs: Seq<(u32, BlockId)>, w: MdfWriter, o: MdfWriter, bound: int, id: BlockId, p: u64)
    requires
        o.wf(),
        groups_below_in(cgs, o, bound),
        id is DataBlock,
        w.table() == record_position(o.table(), id, p) || w.table() == o.table(),
        forall|k: int|
            0 <= k < cgs.len() ==> o.has_group(#[trigger] cgs[k].1) && w.group_data_group(cgs[k].1)
                == o.group_data_group(cgs[k].1),
    ensures
        groups_below_in(cgs, w, bound),
{
    assert forall|k: int| 0 <= k < cgs.len() implies w.position_of(#[trigger] cgs[k].1) is Some
        && w.position_of(cgs[k].1)->0 + 104 <= bound && w.position_of(w.group_data_group(cgs[k].1)) is Some
        && w.position_of(w.group_data_group(cgs[k].1))->0 + 64 <= bound by {
        let c = cgs[k].1;
        o.lemma_group_blocks(c);
        let d = o.group_data_group(c);
        lemma_record_lookup(o.table(), id, p, c);
        lemma_record_lookup(o.table(), id, p, d);
    }
}

/// Splicing `v` in at `off` changes nothing outside its span.
pub(crate) proof fn lemma_splice_keeps(b: Seq<u8>, off: int, v: Seq<u8>)
    requires
        0 <= off,
        off + v.len() <= b.len(),
    ensures
        splice(b, off, v).len() == b.len(),
        forall|j: int| 0 <= j < b.len() && !(off <= j < off + v.len()) ==> #[trigger] splice(b, off, v)[j] == b[j],
{
}

/// Finishing a data block changes only its header and the data and
/// channel group blocks.
pub(crate) proof fn lemma_finished_keeps(b: Seq<u8>, o: OpenDataBlock, dg_pos: u64, cg_pos: u64)
    requires
        dg_pos + 64 <= b.len(),
        cg_pos + 104 <= b.len(),
        o.pos + 24 <= b.len(),
    ensures
        finished_image(b, o, dg_pos, cg_pos).len() == b.len(),
        forall|j: int|
            0 <= j < b.len() && !(dg_pos <= j < dg_pos + 64) && !(cg_pos <= j < cg_pos + 104) && !(o.pos <= j
                < o.pos + 24) ==> #[trigger] finished_image(b, o, dg_pos, cg_pos)[j] == b[j],
{
    crate::blocks::common::lemma_le_roundtrips();
    let b1 = splice(b, o.pos + 8, spec_u64_to_le_bytes((b.len() - o.pos) as u64));
    lemma_splice_keeps(b, o.pos + 8, spec_u64_to_le_bytes((b.len() - o.pos) as u64));
    let b2 = splice(b1, dg_pos + 40, spec_u64_to_le_bytes(o.pos));
    lemma_splice_keeps(b1, dg_pos + 40, spec_u64_to_le_bytes(o.pos));
    let b3 = splice(b2, cg_pos + 80, spec_u64_to_le_bytes(o.record_count));
    lemma_splice_keeps(b2, cg_pos + 80, spec_u64_to_le_bytes(o.record_count));
    lemma_splice_keeps(b3, cg_pos + 96, spec_u32_to_le_bytes((o.record_size - o.record_id_len) as u32));
}

/// The sum of `f` over `ids`.
pub open spec fn sum_over(ids: Seq<u32>, f: spec_fn(u32) -> nat) -> nat
    decreases ids.len(),
{
    if ids.len() == 0 {
        0
    } else {
        sum_over(ids.drop_last(), f) + f(ids.last())
    }
}

/// Raw CAN frame logger producing an MDF image.
pub struct RawCanLogger {
    writer: MdfWriter,
    channel_groups: Vec<(u32, crate::writer::BlockId)>,
    buffers: Vec<(u32, Vec<RawFrame>)>,
    initialized: bool,
    group_by_id: bool,
    /// Whether the groups were written one per ID, fixed when the MDF
    /// structure is written.
    layout_by_id: bool,
    max_data_len: usize,
    /// Whether a CAN FD frame was logged.
    fd_logged: bool,
    /// The number of data byte channels the channel groups were made with.
    group_channels: Ghost<nat>,
    /// The same number, kept for adding groups later.
    group_data_len: usize,
}

impl RawCanLogger {
    /// The CAN IDs that frames were logged for, in ascending order.
    pub closed spec fn ids(&self) -> Seq<u32> {
        self.buffers@.map_values(|e: (u32, Vec<RawFrame>)| e.0)
    }

    /// The position of `id` among the logged IDs.
    closed spec fn slot(&self, id: u32) -> int {
        choose|i: int| 0 <= i < self.buffers@.len() && #[trigger] self.buffers@[i].0 == id
    }

    /// The frames buffered for `id`, oldest first.
    pub closed spec fn frames(&self, id: u32) -> Seq<(u64, u8, Seq<u8>, FdFlags)> {
        if self.ids().contains(id) {
            self.buffers@[self.slot(id)].1@.map_values(|f: RawFrame| f@)
        } else {
            Seq::empty()
        }
    }

    /// The number of frames buffered across all IDs.
    pub open spec fn total_frames(&self) -> nat {
        sum_over(self.ids(), |id: u32| self.frames(id).len())
    }

    /// The largest payload seen, at least 8 bytes.
    pub closed spec fn spec_max_data_len(&self) -> usize {
        self.max_data_len
    }

    /// Whether a CAN FD frame was logged.
    pub closed spec fn spec_fd_logged(&self) -> bool {
        self.fd_logged
    }

    /// Whether each CAN ID gets a channel group of its own.
    pub closed spec fn spec_group_by_id(&self) -> bool {
        self.group_by_id
    }

    /// Whether the channel groups were written one per CAN ID (else one
    /// shared group); fixed when the MDF structure is written.
    pub closed spec fn spec_layout_by_id(&self) -> bool {
        self.layout_by_id
    }

    /// The name of the channel group that the frames of `id` are written
    /// to, if it was given one.
    pub closed spec fn channel_group_name(&self, id: u32) -> Option<Seq<char>> {
        self.writer.group_name(self.channel_group_of(id))
    }

    /// Whether the MDF structure has been written.
    pub closed spec fn spec_initialized(&self) -> bool {
        self.initialized
    }

    /// Whether the MDF structure holds a channel group for `id`: every ID
    /// does before the structure is written; after, those logged by then.
    pub closed spec fn grouped(&self, id: u32) -> bool {
        exists|k: int| 0 <= k < self.channel_groups@.len() && (#[trigger] self.channel_groups@[k]).0 == id
    }

    /// The channel group that the frames of `id` are written to.
    pub closed spec fn channel_group_of(&self, id: u32) -> crate::writer::BlockId {
        self.channel_groups@[choose|k: int| 0 <= k < self.channel_groups@.len() && (#[trigger] self.channel_groups@[k]).0 == id].1
    }

    /// The names of the channels of the channel group that the frames of
    /// `id` are written to, in order.
    pub closed spec fn channel_names(&self, id: u32) -> Seq<Option<Seq<char>>> {
        self.writer.group_channel_names(self.channel_group_of(id))
    }

    /// The record layout of the channel group that the frames of `id` are
    /// written to.
    pub closed spec fn channel_layout(&self, id: u32) -> Seq<crate::writer::ChannelLayout> {
        self.writer.group_layout(self.channel_group_of(id))
    }

    /// Law: once the MDF structure is written, the channel group of each ID
    /// that has one holds, in order, the channels `Timestamp` (64 bits),
    /// `CAN_ID` (32 bits), `DLC` and `FD_Flags` (8 bits each) and one
    /// 8-bit `Data_k` channel per data byte, one after the other in the
    /// record; the group is named `CAN_0x` and the ID in hexadecimal where
    /// each ID has a group of its own, else `RawCAN`.
    pub proof fn lemma_group_structure(&self, id: u32)
        requires
            self.wf(),
            self.spec_initialized(),
            self.grouped(id),
        ensures
            self.channel_names(id) == raw_channel_names(self.record_data_len()),
            self.channel_layout(id) == raw_layout(self.record_data_len()),
            self.channel_group_name(id) == Some(raw_group_name(self.spec_layout_by_id(), id)),
    {
        let k = choose|k: int| 0 <= k < self.channel_groups@.len() && (#[trigger] self.channel_groups@[k]).0 == id;
        assert(0 <= k < self.channel_groups@.len());
        assert(self.writer.group_channel_names(self.channel_groups@[k].1) == raw_channel_names(self.group_channels@));
    }

    /// Law: where the groups are written one per ID, the frames of two
    /// different IDs go to different channel groups.
    pub proof fn lemma_own_groups(&self, a: u32, b: u32)
        requires
            self.wf(),
            self.spec_initialized(),
            self.spec_layout_by_id(),
            self.grouped(a),
            self.grouped(b),
            a != b,
        ensures
            self.channel_group_of(a) != self.channel_group_of(b),
    {
        let i = choose|k: int| 0 <= k < self.channel_groups@.len() && (#[trigger] self.channel_groups@[k]).0 == a;
        let j = choose|k: int| 0 <= k < self.channel_groups@.len() && (#[trigger] self.channel_groups@[k]).0 == b;
        assert(i != j);
        if i < j {
            assert(self.channel_groups@[i].1 != self.channel_groups@[j].1);
        } else {
            assert(self.channel_groups@[j].1 != self.channel_groups@[i].1);
        }
    }

    /// Law: where the groups are not written one per ID, the frames of all
    /// IDs share one channel group.
    pub proof fn lemma_shared_group(&self, a: u32, b: u32)
        requires
            self.wf(),
            self.spec_initialized(),
            !self.spec_layout_by_id(),
            self.grouped(a),
            self.grouped(b),
        ensures
            self.channel_group_of(a) == self.channel_group_of(b),
    {
        let i = choose|k: int| 0 <= k < self.channel_groups@.len() && (#[trigger] self.channel_groups@[k]).0 == a;
        let j = choose|k: int| 0 <= k < self.channel_groups@.len() && (#[trigger] self.channel_groups@[k]).0 == b;
        assert(self.channel_groups@[i].1 == self.channel_groups@[0].1);
        assert(self.channel_groups@[j].1 == self.channel_groups@[0].1);
    }

    /// The number of data bytes in each record.
    pub closed spec fn record_data_len(&self) -> nat {
        if self.initialized {
            self.group_channels@
        } else {
            self.max_data_len as nat
        }
    }

    /// Whether the channel and data group blocks of every group lie below
    /// `bound`.
    closed spec fn groups_below(&self, bound: int) -> bool {
        groups_below_in(self.channel_groups@, self.writer, bound)
    }

    /// The MDF image written so far.
    pub closed spec fn image(&self) -> Seq<u8> {
        self.writer.bytes()
    }

    /// The logger's internal consistency.
    pub closed spec fn wf(&self) -> bool {
        &&& self.writer.wf()
        &&& self.wf_order()
        &&& forall|i: int, k: int|
            0 <= i < self.buffers@.len() && 0 <= k < self.buffers@[i].1@.len() ==> (
            #[trigger] self.buffers@[i].1@[k]).data@.len() <= MAX_FD_DATA_LEN
        &&& 8 <= self.max_data_len <= MAX_FD_DATA_LEN
        &&& self.total_frames() <= usize::MAX
        &&& !self.initialized ==> self.writer.bytes().len() == 0 && self.writer.table().len() == 0
            && self.channel_groups@.len() == 0 && forall|cg: crate::writer::BlockId| !self.writer.has_group(cg)
        &&& self.initialized ==> self.writer.id_at_start() && self.writer.bytes().subrange(0, 64)
            == default_identification_bytes()
        &&& self.initialized ==> forall|i: int|
            0 <= i < self.channel_groups@.len() ==> self.writer.has_group(
                (#[trigger] self.channel_groups@[i]).1,
            ) && self.writer.open_block(self.channel_groups@[i].1) is None
                && crate::writer::data::layout_end(self.writer.group_layout(self.channel_groups@[i].1))
                <= 0xffff_ffff && self.writer.group_layout(self.channel_groups@[i].1) == raw_layout(
                self.group_channels@,
            ) && self.writer.group_channel_names(self.channel_groups@[i].1) == raw_channel_names(
                self.group_channels@,
            )
        &&& self.initialized ==> self.group_channels@ <= self.max_data_len
        &&& self.initialized ==> self.writer.linkable(BlockId::Header, 32)
        &&& self.initialized ==> self.group_data_len == self.group_channels@
        &&& self.initialized ==> cg_ids_below(self.writer.table())
        &&& self.initialized ==> forall|i: int|
            0 <= i < self.channel_groups@.len() ==> self.writer.group_name((#[trigger] self.channel_groups@[i]).1)
                == Some(raw_group_name(self.layout_by_id, self.channel_groups@[i].0))
        &&& self.initialized && self.layout_by_id ==> forall|i: int, j: int|
            0 <= i < j < self.channel_groups@.len() ==> (#[trigger] self.channel_groups@[i]).1
                != (#[trigger] self.channel_groups@[j]).1
        &&& self.initialized && !self.layout_by_id ==> forall|i: int|
            0 <= i < self.channel_groups@.len() ==> (#[trigger] self.channel_groups@[i]).1
                == self.channel_groups@[0].1
    }

    proof fn lemma_slot(&self, i: int)
        requires
            self.wf(),
            0 <= i < self.buffers@.len(),
        ensures
            self.slot(self.buffers@[i].0) == i,
            self.ids().contains(self.buffers@[i].0),
            self.frames(self.buffers@[i].0) == self.buffers@[i].1@.map_values(|f: RawFrame| f@),
    {
        let id = self.buffers@[i].0;
        assert(self.ids()[i] == id);
        let j = self.slot(id);
        assert(self.buffers@[j].0 == id);
        if j < i {
            assert(self.buffers@[j].0 < self.buffers@[i].0);
        } else if j > i {
            assert(self.buffers@[i].0 < self.buffers@[j].0);
        }
    }

    fn from_writer(writer: MdfWriter) -> (r: Self)
        requires
            writer.wf(),
            writer.bytes().len() == 0,
            writer.table().len() == 0,
            forall|cg: crate::writer::BlockId| !writer.has_group(cg),
        ensures
            r.wf(),
            r.ids() == Seq::<u32>::empty(),
            r.spec_max_data_len() == 8,
            r.spec_group_by_id(),
            !r.spec_initialized(),
            !r.spec_fd_logged(),
            forall|x: u32| #[trigger] r.frames(x) == Seq::<(u64, u8, Seq<u8>, FdFlags)>::empty(),
            r.image() == Seq::<u8>::empty(),
    {
        let r = RawCanLogger {
            writer,
            channel_groups: Vec::new(),
            buffers: Vec::new(),
            initialized: false,
            group_by_id: true,
            layout_by_id: true,
            max_data_len: 8,
            fd_logged: false,
            group_channels: Ghost(0),
            group_data_len: 0,
        };
        proof {
            assert(r.ids() =~= Seq::<u32>::empty());
        }
        r
    }

    /// Creates a logger with an empty in-memory image. This never fails.
    pub fn new() -> (r: crate::error::Result<Self>)
        ensures
            r matches Ok(l) && l.wf() && l.ids() == Seq::<u32>::empty() && l.spec_max_data_len() == 8
                && l.spec_group_by_id() && !l.spec_initialized() && !l.spec_fd_logged() && forall|x: u32|
                #[trigger] l.frames(x) == Seq::<(u64, u8, Seq<u8>, FdFlags)>::empty(),
    {
        Ok(Self::from_writer(MdfWriter::new()))
    }

    /// Creates a logger whose image buffer starts with room for `capacity`
    /// bytes. This never fails.
    pub fn with_capacity(capacity: usize) -> (r: crate::error::Result<Self>)
        ensures
            r matches Ok(l) && l.wf() && l.ids() == Seq::<u32>::empty() && l.spec_max_data_len() == 8
                && l.spec_group_by_id() && !l.spec_initialized() && !l.spec_fd_logged() && forall|x: u32|
                #[trigger] l.frames(x) == Seq::<(u64, u8, Seq<u8>, FdFlags)>::empty(),
    {
        Ok(Self::from_writer(MdfWriter::with_capacity(capacity)))
    }

    /// The number of frames buffered for `can_id`.
    pub fn frame_count(&self, can_id: u32) -> (r: usize)
        requires
            self.wf(),
        ensures
            r == self.frames(can_id).len(),
    {
        let mut i: usize = 0;
        while i < self.buffers.len()
            invariant
                self.wf(),
                i <= self.buffers@.len(),
                forall|j: int| 0 <= j < i ==> self.buffers@[j].0 != can_id,
            decreases self.buffers@.len() - i,
        {
            if self.buffers[i].0 == can_id {
                proof {
                    self.lemma_slot(i as int);
                }
                return self.buffers[i].1.len();
            }
            i = i + 1;
        }
        proof {
            if self.ids().contains(can_id) {
                let k = choose|k: int| 0 <= k < self.ids().len() && self.ids()[k] == can_id;
                assert(self.buffers@[k].0 == can_id);
            }
        }
        0
    }

    /// Frame facts for logging one frame under `can_id`.
    proof fn lemma_logged(&self, o: &Self, can_id: u32, f: (u64, u8, Seq<u8>, FdFlags))
        requires
            o.wf(),
            self.wf_order(),
            o.ids().contains(can_id) ==> self.ids() == o.ids(),
            !o.ids().contains(can_id) ==> exists|i: int| 0 <= i <= o.ids().len() && self.ids() == o.ids().insert(i, can_id),
            self.frames(can_id) == o.frames(can_id).push(f),
            forall|x: u32| x != can_id ==> #[trigger] self.frames(x) == o.frames(x),
        ensures
            self.total_frames() == o.total_frames() + 1,
    {
        let fo = |id: u32| o.frames(id).len();
        let fs = |id: u32| self.frames(id).len();
        o.lemma_unique_ids();
        if o.ids().contains(can_id) {
            lemma_sum_bump(o.ids(), fo, fs, can_id);
        } else {
            let i = choose|i: int| 0 <= i <= o.ids().len() && self.ids() == o.ids().insert(i, can_id);
            lemma_sum_same(o.ids(), fo, fs);
            lemma_sum_insert(o.ids(), i, can_id, fs);
        }
    }

    /// The order of the buffers alone.
    /// Law: the CAN IDs are held in strictly ascending order, so each
    /// occurs once; with the contracts of `new`, `log`, `log_fd` and
    /// `flush`, they are exactly the IDs logged so far.
    pub proof fn lemma_ids_ascending(&self)
        requires
            self.wf(),
        ensures
            forall|i: int, j: int| 0 <= i < j < self.ids().len() ==> #[trigger] self.ids()[i] < #[trigger] self.ids()[j],
            self.ids().no_duplicates(),
    {
        assert forall|i: int, j: int| 0 <= i < j < self.ids().len() implies #[trigger] self.ids()[i]
            < #[trigger] self.ids()[j] by {
            assert(self.buffers@[i].0 < self.buffers@[j].0);
        }
        assert forall|i: int, j: int| 0 <= i < self.ids().len() && 0 <= j < self.ids().len() && i != j implies self.ids()[i]
            != self.ids()[j] by {
            if i < j {
                assert(self.buffers@[i].0 < self.buffers@[j].0);
            } else {
                assert(self.buffers@[j].0 < self.buffers@[i].0);
            }
        }
    }

    closed spec fn wf_order(&self) -> bool {
        forall|i: int, j: int|
            0 <= i < j < self.buffers@.len() ==> #[trigger] self.buffers@[i].0 < #[trigger] self.buffers@[j].0
    }

    proof fn lemma_unique_ids(&self)
        requires
            self.wf(),
        ensures
            forall|i: int, j: int|
                0 <= i < self.ids().len() && 0 <= j < self.ids().len() && i != j ==> self.ids()[i]
                    != self.ids()[j],
    {
        assert forall|i: int, j: int|
            0 <= i < self.ids().len() && 0 <= j < self.ids().len() && i != j implies self.ids()[i]
                != self.ids()[j] by {
            if i < j {
                assert(self.buffers@[i].0 < self.buffers@[j].0);
            } else {
                assert(self.buffers@[j].0 < self.buffers@[i].0);
            }
        }
    }

    /// Buffers `frame` under `can_id`, keeping the IDs in ascending order.
    fn push_frame(&mut self, can_id: u32, frame: RawFrame)
        requires
            old(self).wf(),
            frame.data@.len() <= MAX_FD_DATA_LEN,
            old(self).total_frames() < usize::MAX,
        ensures
            final(self).wf(),
            final(self).frames(can_id) == old(self).frames(can_id).push(frame@),
            forall|x: u32| x != can_id ==> #[trigger] final(self).frames(x) == old(self).frames(x),
            forall|x: u32| #[trigger] final(self).ids().contains(x) <==> old(self).ids().contains(x) || x == can_id,
            final(self).total_frames() == old(self).total_frames() + 1,
            final(self).writer == old(self).writer,
            final(self).channel_groups == old(self).channel_groups,
            final(self).initialized == old(self).initialized,
            final(self).group_by_id == old(self).group_by_id,
            final(self).max_data_len == old(self).max_data_len,
            final(self).fd_logged == old(self).fd_logged,
    {
        let mut i: usize = 0;
        while i < self.buffers.len() && self.buffers[i].0 < can_id
            invariant
                i <= self.buffers@.len(),
                forall|j: int| 0 <= j < i ==> self.buffers@[j].0 < can_id,
            decreases self.buffers@.len() - i,
        {
            i = i + 1;
        }
        if i < self.buffers.len() && self.buffers[i].0 == can_id {
            self.push_existing(i, can_id, frame);
        } else {
            proof {
                assert forall|j: int| i <= j < self.buffers@.len() implies self.buffers@[j].0 > can_id by {
                    if j > i {
                        assert(self.buffers@[i as int].0 < self.buffers@[j].0);
                    }
                }
            }
            self.insert_new(i, can_id, frame);
        }
    }

    fn push_existing(&mut self, i: usize, can_id: u32, frame: RawFrame)
        requires
            old(self).wf(),
            frame.data@.len() <= MAX_FD_DATA_LEN,
            old(self).total_frames() < usize::MAX,
            i < old(self).buffers@.len(),
            old(self).buffers@[i as int].0 == can_id,
        ensures
            final(self).wf(),
            final(self).frames(can_id) == old(self).frames(can_id).push(frame@),
            forall|x: u32| x != can_id ==> #[trigger] final(self).frames(x) == old(self).frames(x),
            forall|x: u32| #[trigger] final(self).ids().contains(x) <==> old(self).ids().contains(x) || x == can_id,
            final(self).total_frames() == old(self).total_frames() + 1,
            final(self).writer == old(self).writer,
            final(self).channel_groups == old(self).channel_groups,
            final(self).initialized == old(self).initialized,
            final(self).group_by_id == old(self).group_by_id,
            final(self).max_data_len == old(self).max_data_len,
            final(self).fd_logged == old(self).fd_logged,
    {
        let ghost s0 = *self;
        let ghost fv = frame@;
        self.buffers[i].1.push(frame);
        proof {
            assert(self.buffers@ == s0.buffers@.update(i as int, (can_id, self.buffers@[i as int].1)));
            assert(self.ids() =~= s0.ids());
            assert(self.wf_order());
            s0.lemma_slot(i as int);
            assert forall|x: u32| x != can_id implies #[trigger] self.frames(x) == s0.frames(x) by {
                if s0.ids().contains(x) {
                    let k = choose|k: int| 0 <= k < s0.ids().len() && s0.ids()[k] == x;
                    assert(s0.buffers@[k].0 == x);
                    s0.lemma_slot(k);
                    self.lemma_slot_order(k);
                }
            }
            self.lemma_slot_order(i as int);
            assert(self.buffers@[i as int].1@.map_values(|f: RawFrame| f@) =~= s0.buffers@[i as int].1@.map_values(|f: RawFrame| f@).push(fv));
            self.lemma_logged(&s0, can_id, fv);
            assert forall|a: int, k: int| 0 <= a < self.buffers@.len() && 0 <= k < self.buffers@[a].1@.len()
                implies (#[trigger] self.buffers@[a].1@[k]).data@.len() <= MAX_FD_DATA_LEN by {
                if a == i && k == self.buffers@[a].1@.len() - 1 {
                } else {
                    assert(self.buffers@[a].1@[k] == s0.buffers@[a].1@[k]);
                }
            }
        }
    }

    #[verifier::rlimit(40)]
    fn insert_new(&mut self, i: usize, can_id: u32, frame: RawFrame)
        requires
            old(self).wf(),
            frame.data@.len() <= MAX_FD_DATA_LEN,
            old(self).total_frames() < usize::MAX,
            i <= old(self).buffers@.len(),
            forall|j: int| 0 <= j < i ==> old(self).buffers@[j].0 < can_id,
            forall|j: int| i <= j < old(self).buffers@.len() ==> old(self).buffers@[j].0 > can_id,
        ensures
            final(self).wf(),
            final(self).frames(can_id) == old(self).frames(can_id).push(frame@),
            forall|x: u32| x != can_id ==> #[trigger] final(self).frames(x) == old(self).frames(x),
            forall|x: u32| #[trigger] final(self).ids().contains(x) <==> old(self).ids().contains(x) || x == can_id,
            final(self).total_frames() == old(self).total_frames() + 1,
            final(self).writer == old(self).writer,
            final(self).channel_groups == old(self).channel_groups,
            final(self).initialized == old(self).initialized,
            final(self).group_by_id == old(self).group_by_id,
            final(self).max_data_len == old(self).max_data_len,
            final(self).fd_logged == old(self).fd_logged,
    {
        let ghost s0 = *self;
        let ghost fv = frame@;
        let mut v: Vec<RawFrame> = Vec::new();
        v.push(frame);
        self.buffers.insert(i, (can_id, v));
        proof {
            assert(self.buffers@ == s0.buffers@.insert(i as int, (can_id, v)));
            assert(self.ids() =~= s0.ids().insert(i as int, can_id));
            assert(!s0.ids().contains(can_id)) by {
                if s0.ids().contains(can_id) {
                    let k = choose|k: int| 0 <= k < s0.ids().len() && s0.ids()[k] == can_id;
                    assert(s0.buffers@[k].0 == can_id);
                }
            }
            assert forall|a: int, b: int| 0 <= a < b < self.buffers@.len() implies #[trigger] self.buffers@[a].0 < #[trigger] self.buffers@[b].0 by {
                if b < i {
                    assert(self.buffers@[a] == s0.buffers@[a]);
                    assert(self.buffers@[b] == s0.buffers@[b]);
                } else if a < i && b == i {
                    assert(self.buffers@[a] == s0.buffers@[a]);
                } else if a < i && b > i {
                    assert(self.buffers@[a] == s0.buffers@[a]);
                    assert(self.buffers@[b] == s0.buffers@[b - 1]);
                } else if a == i {
                    assert(self.buffers@[b] == s0.buffers@[b - 1]);
                } else {
                    assert(self.buffers@[a] == s0.buffers@[a - 1]);
                    assert(self.buffers@[b] == s0.buffers@[b - 1]);
                }
            }
            assert(self.wf_order());
            self.lemma_slot_order(i as int);
            assert forall|x: u32| x != can_id implies #[trigger] self.frames(x) == s0.frames(x) by {
                if s0.ids().contains(x) {
                    let k = choose|k: int| 0 <= k < s0.ids().len() && s0.ids()[k] == x;
                    assert(s0.buffers@[k].0 == x);
                    s0.lemma_slot(k);
                    if k < i {
                        assert(self.buffers@[k] == s0.buffers@[k]);
                        self.lemma_slot_order(k);
                    } else {
                        assert(self.buffers@[k + 1] == s0.buffers@[k]);
                        self.lemma_slot_order(k + 1);
                    }
                } else {
                    if self.ids().contains(x) {
                        let k = choose|k: int| 0 <= k < self.ids().len() && self.ids()[k] == x;
                        if k < i {
                            assert(s0.ids()[k] == x);
                        } else if k > i {
                            assert(s0.ids()[k - 1] == x);
                        }
                    }
                }
            }
            assert(self.buffers@[i as int].1@.map_values(|f: RawFrame| f@) =~= seq![fv]);
            assert(s0.frames(can_id).push(fv) =~= seq![fv]);
            self.lemma_logged(&s0, can_id, fv);
            assert forall|x: u32| #[trigger] self.ids().contains(x) <==> s0.ids().contains(x) || x == can_id by {
                if self.ids().contains(x) && x != can_id {
                    let k = choose|k: int| 0 <= k < self.ids().len() && self.ids()[k] == x;
                    if k < i {
                        assert(s0.ids()[k] == x);
                    } else if k > i {
                        assert(s0.ids()[k - 1] == x);
                    }
                }
                if s0.ids().contains(x) {
                    let k = choose|k: int| 0 <= k < s0.ids().len() && s0.ids()[k] == x;
                    if k < i {
                        assert(self.ids()[k] == x);
                    } else {
                        assert(self.ids()[k + 1] == x);
                    }
                }
                if x == can_id {
                    assert(self.ids()[i as int] == x);
                }
            }
            assert forall|a: int, k: int| 0 <= a < self.buffers@.len() && 0 <= k < self.buffers@[a].1@.len()
                implies (#[trigger] self.buffers@[a].1@[k]).data@.len() <= MAX_FD_DATA_LEN by {
                if a < i {
                    assert(self.buffers@[a] == s0.buffers@[a]);
                    assert(s0.buffers@[a].1@[k].data@.len() <= MAX_FD_DATA_LEN);
                } else if a > i {
                    assert(self.buffers@[a] == s0.buffers@[a - 1]);
                    assert(s0.buffers@[a - 1].1@[k].data@.len() <= MAX_FD_DATA_LEN);
                } else {
                    assert(self.buffers@[a] == (can_id, v));
                    assert(v@.len() == 1);
                    assert(self.buffers@[a].1@[k].data@ == fv.2);
                }
            }
        }
    }

    /// The views depend on the buffers alone.
    proof fn lemma_same_buffers(&self, o: &Self)
        requires
            self.buffers@ == o.buffers@,
        ensures
            self.ids() == o.ids(),
            forall|x: u32| #[trigger] self.frames(x) == o.frames(x),
            self.total_frames() == o.total_frames(),
    {
        assert(self.ids() =~= o.ids());
        assert forall|x: u32| #[trigger] self.frames(x) == o.frames(x) by {}
        assert((|id: u32| self.frames(id).len()) =~= (|id: u32| o.frames(id).len()));
    }

    proof fn lemma_slot_order(&self, i: int)
        requires
            self.wf_order(),
            0 <= i < self.buffers@.len(),
        ensures
            self.slot(self.buffers@[i].0) == i,
            self.ids().contains(self.buffers@[i].0),
            self.frames(self.buffers@[i].0) == self.buffers@[i].1@.map_values(|f: RawFrame| f@),
    {
        let id = self.buffers@[i].0;
        assert(self.ids()[i] == id);
        let j = self.slot(id);
        assert(self.buffers@[j].0 == id);
        if j < i {
            assert(self.buffers@[j].0 < self.buffers@[i].0);
        } else if j > i {
            assert(self.buffers@[i].0 < self.buffers@[j].0);
        }
    }
}

impl RawCanLogger {
    /// Buffers a classic CAN frame (at most 8 payload bytes are kept; the
    /// data length code is the number kept). Raw logging never rejects a
    /// frame: this always returns `true`.
    pub fn log(&mut self, can_id: u32, timestamp_us: u64, data: &[u8]) -> (r: bool)
        requires
            old(self).wf(),
            old(self).total_frames() < usize::MAX,
        ensures
            r,
            final(self).wf(),
            final(self).frames(can_id) == old(self).frames(can_id).push(
                (timestamp_us, prefix(data@, 8).len() as u8, prefix(data@, 8), final(self).frames(can_id).last().3),
            ),
            !final(self).frames(can_id).last().3.spec_brs() && !final(self).frames(can_id).last().3.spec_esi(),
            forall|x: u32| x != can_id ==> #[trigger] final(self).frames(x) == old(self).frames(x),
            forall|x: u32| #[trigger] final(self).ids().contains(x) <==> old(self).ids().contains(x) || x == can_id,
            final(self).total_frames() == old(self).total_frames() + 1,
            final(self).spec_max_data_len() == old(self).spec_max_data_len(),
            final(self).spec_fd_logged() == old(self).spec_fd_logged(),
            final(self).spec_group_by_id() == old(self).spec_group_by_id(),
            final(self).spec_initialized() == old(self).spec_initialized(),
            final(self).image() == old(self).image(),
    {
        let dlc: u8 = if data.len() < 8 {
            data.len() as u8
        } else {
            8
        };
        let frame = RawFrame::new_classic(timestamp_us, dlc, data);
        self.push_frame(can_id, frame);
        true
    }

    /// Buffers a CAN FD frame (at most 64 payload bytes are kept; the data
    /// length code is that of the payload length). A payload longer than
    /// any seen so far raises the largest data length, up to 64. This
    /// always returns `true`.
    pub fn log_fd(&mut self, can_id: u32, timestamp_us: u64, data: &[u8], flags: FdFlags) -> (r: bool)
        requires
            old(self).wf(),
            old(self).total_frames() < usize::MAX,
        ensures
            r,
            final(self).wf(),
            final(self).frames(can_id) == old(self).frames(can_id).push(
                (timestamp_us, spec_len_to_dlc(data@.len() as int), prefix(data@, MAX_FD_DATA_LEN as int), flags),
            ),
            forall|x: u32| x != can_id ==> #[trigger] final(self).frames(x) == old(self).frames(x),
            forall|x: u32| #[trigger] final(self).ids().contains(x) <==> old(self).ids().contains(x) || x == can_id,
            final(self).total_frames() == old(self).total_frames() + 1,
            final(self).spec_max_data_len() == if data@.len() > old(self).spec_max_data_len() {
                if data@.len() < MAX_FD_DATA_LEN { data@.len() as usize } else { MAX_FD_DATA_LEN }
            } else {
                old(self).spec_max_data_len()
            },
            final(self).spec_fd_logged(),
            final(self).spec_group_by_id() == old(self).spec_group_by_id(),
            final(self).spec_initialized() == old(self).spec_initialized(),
            final(self).image() == old(self).image(),
    {
        let dlc = len_to_dlc(data.len());
        let frame = RawFrame::new_fd(timestamp_us, dlc, data, flags);
        if data.len() > self.max_data_len {
            self.max_data_len = if data.len() < MAX_FD_DATA_LEN {
                data.len()
            } else {
                MAX_FD_DATA_LEN
            };
        }
        self.fd_logged = true;
        proof {
            self.lemma_same_buffers(old(self));
        }
        self.push_frame(can_id, frame);
        true
    }

    /// The CAN IDs that frames were logged for, in ascending order.
    pub fn can_ids(&self) -> (r: Vec<u32>)
        requires
            self.wf(),
        ensures
            r@ == self.ids(),
            forall|i: int, j: int| 0 <= i < j < r@.len() ==> r@[i] < r@[j],
    {
        let mut out: Vec<u32> = Vec::new();
        let mut i: usize = 0;
        while i < self.buffers.len()
            invariant
                i <= self.buffers@.len(),
                out@ == self.ids().subrange(0, i as int),
            decreases self.buffers@.len() - i,
        {
            out.push(self.buffers[i].0);
            i = i + 1;
            assert(out@ =~= self.ids().subrange(0, i as int));
        }
        assert(out@ =~= self.ids());
        out
    }

    /// The number of frames buffered across all CAN IDs: the sum of
    /// [`RawCanLogger::frame_count`] over [`RawCanLogger::can_ids`].
    pub fn total_frame_count(&self) -> (r: usize)
        requires
            self.wf(),
        ensures
            r == self.total_frames(),
    {
        let mut total: usize = 0;
        let mut i: usize = 0;
        let ghost f = |id: u32| self.frames(id).len();
        while i < self.buffers.len()
            invariant
                self.wf(),
                i <= self.buffers@.len(),
                f == (|id: u32| self.frames(id).len()),
                total == sum_over(self.ids().subrange(0, i as int), f),
            decreases self.buffers@.len() - i,
        {
            proof {
                let s = self.ids().subrange(0, i + 1);
                assert(s.drop_last() =~= self.ids().subrange(0, i as int));
                assert(s.last() == self.buffers@[i as int].0);
                self.lemma_slot(i as int);
                lemma_sum_prefix_bound(self.ids(), f, i + 1);
                assert(self.ids().subrange(0, self.ids().len() as int) =~= self.ids());
            }
            total = total + self.buffers[i].1.len();
            i = i + 1;
        }
        assert(self.ids().subrange(0, i as int) =~= self.ids());
        total
    }

    /// The number of distinct CAN IDs that frames were logged for.
    pub fn unique_id_count(&self) -> (r: usize)
        requires
            self.wf(),
        ensures
            r == self.ids().len(),
    {
        self.buffers.len()
    }

    /// Chooses whether each CAN ID gets its own channel group (`true`, the
    /// default) or all frames share one. It takes effect when the MDF
    /// structure is written, at the first flush.
    pub fn set_group_by_id(&mut self, group_by_id: bool)
        requires
            old(self).wf(),
        ensures
            final(self).wf(),
            final(self).spec_group_by_id() == group_by_id,
            final(self).ids() == old(self).ids(),
            forall|x: u32| #[trigger] final(self).frames(x) == old(self).frames(x),
            final(self).spec_max_data_len() == old(self).spec_max_data_len(),
            final(self).spec_initialized() == old(self).spec_initialized(),
            final(self).image() == old(self).image(),
    {
        self.group_by_id = group_by_id;
        proof {
            self.lemma_same_buffers(old(self));
        }
    }

    /// Whether a CAN FD frame was logged.
    pub fn has_fd_frames(&self) -> (r: bool)
        ensures
            r == self.spec_fd_logged(),
    {
        self.fd_logged
    }

    /// The largest payload length seen: 8 for classic CAN only, up to 64
    /// for CAN FD.
    pub fn max_data_length(&self) -> (r: usize)
        requires
            self.wf(),
        ensures
            r == self.spec_max_data_len(),
            8 <= r <= MAX_FD_DATA_LEN,
    {
        self.max_data_len
    }
}

/// Functions that agree on every element of `s` have the same sum over it.
proof fn lemma_sum_same(s: Seq<u32>, f: spec_fn(u32) -> nat, g: spec_fn(u32) -> nat)
    requires
        forall|x: u32| s.contains(x) ==> #[trigger] f(x) == g(x),
    ensures
        sum_over(s, f) == sum_over(s, g),
    decreases s.len(),
{
    if s.len() > 0 {
        assert forall|x: u32| s.drop_last().contains(x) implies f(x) == g(x) by {
            let k = choose|k: int| 0 <= k < s.drop_last().len() && s.drop_last()[k] == x;
            assert(s[k] == x);
        }
        lemma_sum_same(s.drop_last(), f, g);
        assert(s.contains(s.last())) by {
            assert(s[s.len() - 1] == s.last());
        }
    }
}

/// Raising `f` by one at an element that occurs once in `s` raises the
/// sum by one.
proof fn lemma_sum_bump(s: Seq<u32>, f: spec_fn(u32) -> nat, g: spec_fn(u32) -> nat, id: u32)
    requires
        s.contains(id),
        forall|i: int, j: int| 0 <= i < s.len() && 0 <= j < s.len() && i != j ==> s[i] != s[j],
        g(id) == f(id) + 1,
        forall|x: u32| x != id ==> #[trigger] f(x) == g(x),
    ensures
        sum_over(s, g) == sum_over(s, f) + 1,
    decreases s.len(),
{
    let r = s.drop_last();
    if s.last() == id {
        assert forall|x: u32| r.contains(x) implies f(x) == g(x) by {
            let k = choose|k: int| 0 <= k < r.len() && r[k] == x;
            assert(s[k] == x);
            assert(k != s.len() - 1);
        }
        lemma_sum_same(r, f, g);
    } else {
        let k = choose|k: int| 0 <= k < s.len() && s[k] == id;
        assert(k != s.len() - 1);
        assert(r[k] == id);
        lemma_sum_bump(r, f, g, id);
    }
}

/// Inserting `x` anywhere adds `f(x)` to the sum.
proof fn lemma_sum_insert(s: Seq<u32>, i: int, x: u32, f: spec_fn(u32) -> nat)
    requires
        0 <= i <= s.len(),
    ensures
        sum_over(s.insert(i, x), f) == sum_over(s, f) + f(x),
    decreases s.len(),
{
    let t = s.insert(i, x);
    if i == s.len() {
        assert(t.drop_last() =~= s);
        assert(t.last() == x);
    } else {
        assert(t.drop_last() =~= s.drop_last().insert(i, x));
        assert(t.last() == s.last());
        lemma_sum_insert(s.drop_last(), i, x, f);
    }
}

/// A prefix of the sum is at most the whole sum.
proof fn lemma_sum_prefix_bound(s: Seq<u32>, f: spec_fn(u32) -> nat, n: int)
    requires
        0 <= n <= s.len(),
    ensures
        sum_over(s.subrange(0, n), f) <= sum_over(s, f),
    decreases s.len() - n,
{
    if n < s.len() {
        lemma_sum_prefix_bound(s, f, n + 1);
        assert(s.subrange(0, n + 1).drop_last() =~= s.subrange(0, n));
    } else {
        assert(s.subrange(0, n) =~= s);
    }
}

/// The name of the channel group of `can_id`: `CAN_0x` and the
/// identifier in upper-case hexadecimal, eight digits for an extended
/// (29-bit) identifier (bit 31 set), at least three for a standard one.
pub open spec fn group_name(can_id: u32) -> Seq<char> {
    if can_id & 0x8000_0000 != 0 {
        seq!['C', 'A', 'N', '_', '0', 'x'] + hex_chars((can_id & 0x1FFF_FFFF) as nat, 8)
    } else {
        seq!['C', 'A', 'N', '_', '0', 'x'] + hex_chars(can_id as nat, 3)
    }
}

/// The name of the channel group of `can_id`: [`group_name`] where each
/// ID has a group of its own, else `RawCAN`.
pub open spec fn raw_group_name(by_id: bool, can_id: u32) -> Seq<char> {
    if by_id {
        group_name(can_id)
    } else {
        seq!['R', 'a', 'w', 'C', 'A', 'N']
    }
}

/// Renders [`group_name`].
fn group_name_of(can_id: u32) -> (r: String)
    ensures
        r@ == group_name(can_id),
        r@.len() <= 22,
{
    let prefix = "CAN_0x";
    proof {
        reveal_strlit("CAN_0x");
        reveal_with_fuel(pow16, 9);
        assert(pow16(8) == 0x1_0000_0000);
    }
    if can_id & 0x8000_0000 != 0 {
        let v = can_id & 0x1FFF_FFFF;
        let h = hex_string(v as u64, 8);
        proof {
            lemma_hex_chars_len(v as nat, 8, 8);
        }
        concat_str(prefix, h.as_str())
    } else {
        let h = hex_string(can_id as u64, 3);
        proof {
            lemma_hex_chars_len(can_id as nat, 3, 8);
        }
        concat_str(prefix, h.as_str())
    }
}

/// Facts that chain over successive changes of a writer made while
/// building group `cg`.
proof fn lemma_chain(w: &MdfWriter, mid: &MdfWriter, o: &MdfWriter, cg: BlockId)
    requires
        w.extends(mid),
        mid.extends(o),
        w.keeps_other_groups(mid, cg),
        mid.keeps_other_groups(o, cg),
    ensures
        w.extends(o),
        w.keeps_other_groups(o, cg),
{
    w.lemma_extends_trans(mid, o);
    w.lemma_keeps_trans(mid, o, cg);
}

/// The names of the channels of a raw frame group with `n` data byte
/// channels: `Timestamp`, `CAN_ID`, `DLC`, `FD_Flags`, then `Data_0` to
/// `Data_{n-1}`.
pub open spec fn raw_channel_names(n: nat) -> Seq<Option<Seq<char>>> {
    seq![
        Some(seq!['T', 'i', 'm', 'e', 's', 't', 'a', 'm', 'p']),
        Some(seq!['C', 'A', 'N', '_', 'I', 'D']),
        Some(seq!['D', 'L', 'C']),
        Some(seq!['F', 'D', '_', 'F', 'l', 'a', 'g', 's']),
    ] + Seq::new(n, |i: int| Some(seq!['D', 'a', 't', 'a', '_'] + decimal_chars(i as nat)))
}

/// Adds an unsigned little-endian channel named `name` of `bits` bits to
/// group `cg`, placed after the group's channels so far and linked after
/// channel `prev` (or first in the group).
fn add_raw_channel(w: &mut MdfWriter, cg: BlockId, prev: Option<BlockId>, name: String, bits: u32) -> (r: Result<BlockId>)
    requires
        old(w).wf(),
        old(w).has_group(cg),
        old(w).linkable(cg, 104),
        prev matches Some(p) ==> old(w).linkable(p, 160),
        name@.len() <= 32,
        old(w).open_block(cg) is None,
        layout_end(old(w).group_layout(cg)) <= old(w).group_record_bytes(cg),
        old(w).group_record_bytes(cg) <= 0xffff,
        1 <= bits <= 64,
        cg != BlockId::Identification,
        prev != Some(BlockId::Identification),
    ensures
        final(w).keeps_start(old(w)),
        r matches Ok(id) ==> id != BlockId::Identification,
        final(w).wf(),
        final(w).extends(old(w)),
        r matches Ok(id) && final(w).linkable(id, 160),
        final(w).has_group(cg),
        final(w).open_block(cg) is None,
        final(w).group_record_bytes(cg) == old(w).group_record_bytes(cg) + (bits + 7) / 8,
        final(w).group_layout(cg) == old(w).group_layout(cg).push(
            raw_entry(old(w).group_record_bytes(cg) as u32, bits),
        ),
        final(w).group_channel_names(cg) == old(w).group_channel_names(cg).push(Some(name@)),
        final(w).group_names_map() == old(w).group_names_map(),
        final(w).cg_kept(old(w)),
        layout_end(final(w).group_layout(cg)) <= final(w).group_record_bytes(cg),
        final(w).keeps_other_groups(old(w), cg),
{
    let ghost s0 = *w;
    let ghost nm = name@;
    let mut ch = ChannelBlock::default();
    ch.data_type = DataType::UnsignedIntegerLE;
    ch.name = Some(name);
    ch.bit_count = bits;
    proof {
        lemma_encode_utf8_len(nm);
        s0.lemma_open_block(cg);
    }
    let r = w.add_channel(cg, prev, ch);
    proof {
        w.lemma_open_block(cg);
        let l0 = s0.group_layout(cg);
        let e = crate::writer::init::layout_entry(ch, s0.group_record_bytes(cg) as u32);
        assert(l0.push(e).drop_last() =~= l0);
    }
    r
}

/// Adds a channel group named `name` in a data group of its own, with the
/// channels of a raw frame: timestamp (64 bits, master channel, unit
/// `us`), CAN ID (32 bits), DLC (8 bits), FD flags (8 bits) and
/// `data_channels` data bytes named `Data_0` on.
fn add_raw_group(w: &mut MdfWriter, name: String, data_channels: usize) -> (r: Result<BlockId>)
    requires
        old(w).wf(),
        old(w).linkable(BlockId::Header, 32),
        name@.len() <= 32,
        data_channels <= MAX_FD_DATA_LEN,
    ensures
        final(w).keeps_start(old(w)),
        final(w).wf(),
        final(w).extends(old(w)),
        r matches Ok(cg) && final(w).has_group(cg) && final(w).open_block(cg) is None && layout_end(
            final(w).group_layout(cg),
        ) <= 0xffff_ffff && final(w).keeps_other_groups(old(w), cg)
            && final(w).group_layout(cg) == raw_layout(data_channels as nat)
            && final(w).group_channel_names(cg) == raw_channel_names(data_channels as nat)
            && final(w).group_names_map() == old(w).group_names_map().insert(cg, name@)
            && (cg_ids_below(old(w).table()) ==> !old(w).has_group(cg))
            && final(w).group_record_bytes(cg) == 14 + data_channels,
        final(w).cg_kept(old(w)),
{
    let ghost s0 = *w;
    let cg = match w.add_channel_group(None, ChannelGroupBlock::default()) {
        Ok(c) => c,
        Err(e) => {
            return Err(e);
        },
    };
    proof {
        w.lemma_open_block(cg);
    }
    let ghost s1 = *w;
    proof {
        lemma_encode_utf8_len(name@);
    }
    match w.set_channel_group_name(cg, name.as_str()) {
        Ok(()) => {},
        Err(e) => {
            return Err(e);
        },
    }
    proof {
        w.lemma_same_layout(&s1);
        lemma_chain(w, &s1, &s0, cg);
    }
    let ghost s2 = *w;
    proof {
        reveal_strlit("Timestamp");
    }
    let time_ch = match add_raw_channel(w, cg, None, String::from_str("Timestamp"), 64) {
        Ok(c) => c,
        Err(e) => {
            return Err(e);
        },
    };
    proof {
        lemma_chain(w, &s2, &s0, cg);
        w.lemma_linkable_patchable(time_ch, 89, 1);
    }
    let ghost s3 = *w;
    match w.set_time_channel(time_ch) {
        Ok(()) => {},
        Err(e) => {
            return Err(e);
        },
    }
    proof {
        w.lemma_same_layout(&s3);
        lemma_chain(w, &s3, &s0, cg);
    }
    let ghost s4 = *w;
    proof {
        reveal_strlit("us");
        lemma_encode_utf8_len("us"@);
    }
    match w.set_channel_unit(time_ch, "us") {
        Ok(()) => {},
        Err(e) => {
            return Err(e);
        },
    }
    proof {
        w.lemma_same_layout(&s4);
        lemma_chain(w, &s4, &s0, cg);
    }
    let ghost s5 = *w;
    proof {
        reveal_strlit("CAN_ID");
    }
    let id_ch = match add_raw_channel(w, cg, Some(time_ch), String::from_str("CAN_ID"), 32) {
        Ok(c) => c,
        Err(e) => {
            return Err(e);
        },
    };
    proof {
        lemma_chain(w, &s5, &s0, cg);
    }
    let ghost s6 = *w;
    proof {
        reveal_strlit("DLC");
    }
    let dlc_ch = match add_raw_channel(w, cg, Some(id_ch), String::from_str("DLC"), 8) {
        Ok(c) => c,
        Err(e) => {
            return Err(e);
        },
    };
    proof {
        lemma_chain(w, &s6, &s0, cg);
    }
    let ghost s7 = *w;
    proof {
        reveal_strlit("FD_Flags");
    }
    let flags_ch = match add_raw_channel(w, cg, Some(dlc_ch), String::from_str("FD_Flags"), 8) {
        Ok(c) => c,
        Err(e) => {
            return Err(e);
        },
    };
    proof {
        lemma_chain(w, &s7, &s0, cg);
        assert(w.group_layout(cg) =~= raw_layout(0));
        assert(w.group_channel_names(cg) =~~= raw_channel_names(0));
    }
    let mut prev = flags_ch;
    let mut i: usize = 0;
    while i < data_channels
        invariant
            w.wf(),
            w.extends(&s0),
            w.keeps_other_groups(&s0, cg),
            w.has_group(cg),
            w.linkable(cg, 104),
            w.linkable(prev, 160),
            w.open_block(cg) is None,
            layout_end(w.group_layout(cg)) <= w.group_record_bytes(cg),
            w.group_record_bytes(cg) == 14 + i,
            w.group_layout(cg) == raw_layout(i as nat),
            w.group_channel_names(cg) == raw_channel_names(i as nat),
            w.group_names_map() == s0.group_names_map().insert(cg, name@),
            w.cg_kept(&s0),
            w.keeps_start(&s0),
            cg != BlockId::Identification,
            prev != BlockId::Identification,
            i <= data_channels,
            data_channels <= MAX_FD_DATA_LEN,
        decreases data_channels - i,
    {
        let ghost sm = *w;
        let name = concat_str("Data_", decimal_string(i as u64).as_str());
        proof {
            reveal_strlit("Data_");
            lemma_decimal_chars_short(i as nat);
        }
        let ch = match add_raw_channel(w, cg, Some(prev), name, 8) {
            Ok(c) => c,
            Err(e) => {
                return Err(e);
            },
        };
        proof {
            lemma_chain(w, &sm, &s0, cg);
            assert(raw_layout(i as nat).push(raw_entry((14 + i) as u32, 8)) =~= raw_layout((i + 1) as nat));
            assert(raw_channel_names(i as nat).push(Some(name@)) =~~= raw_channel_names((i + 1) as nat));
        }
        prev = ch;
        i = i + 1;
    }
    Ok(cg)
}

/// Builds [`raw_record_values`].
fn frame_values(frame: &RawFrame, can_id: u32, n: usize) -> (r: Vec<DecodedValue>)
    ensures
        r@ == raw_record_values(frame@, can_id, n as nat),
{
    let mut values: Vec<DecodedValue> = Vec::new();
    values.push(DecodedValue::UnsignedInteger(frame.timestamp_us));
    values.push(DecodedValue::UnsignedInteger(can_id as u64));
    values.push(DecodedValue::UnsignedInteger(frame.dlc as u64));
    values.push(DecodedValue::UnsignedInteger(frame.fd_flags.to_byte() as u64));
    let ghost head = values@;
    let mut i: usize = 0;
    while i < n
        invariant
            i <= n,
            values@ == head + Seq::new(
                i as nat,
                |k: int|
                    DecodedValue::UnsignedInteger(
                        if k < frame.data@.len() {
                            frame.data@[k] as u64
                        } else {
                            0
                        },
                    ),
            ),
        decreases n - i,
    {
        let byte: u8 = if i < frame.data.len() {
            frame.data[i]
        } else {
            0
        };
        values.push(DecodedValue::UnsignedInteger(byte as u64));
        i = i + 1;
        assert(values@ =~= head + Seq::new(
            i as nat,
            |k: int|
                DecodedValue::UnsignedInteger(
                    if k < frame.data@.len() {
                        frame.data@[k] as u64
                    } else {
                        0
                    },
                ),
        ));
    }
    assert(values@ =~= raw_record_values(frame@, can_id, n as nat));
    values
}

impl RawCanLogger {
    /// The number of data byte channels of each group.
    fn data_channel_count(&self) -> (r: usize)
        requires
            self.wf(),
        ensures
            r == self.spec_max_data_len(),
            8 <= r <= MAX_FD_DATA_LEN,
    {
        if self.max_data_len > 8 {
            self.max_data_len
        } else {
            8
        }
    }

    /// Writes the identification and header blocks and the channel groups:
    /// one per CAN ID logged so far, in ascending order of ID, or a single
    /// group named `RawCAN` for all of them.
    fn initialize_mdf(&mut self) -> (r: Result<()>)
        requires
            old(self).wf(),
            !old(self).initialized,
        ensures
            final(self).wf(),
            r is Ok,
            final(self).initialized,
            final(self).buffers == old(self).buffers,
            final(self).group_by_id == old(self).group_by_id,
            final(self).max_data_len == old(self).max_data_len,
            final(self).group_channels@ == old(self).max_data_len,
            final(self).layout_by_id == old(self).group_by_id,
            final(self).fd_logged == old(self).fd_logged,
            forall|x: u32| #[trigger] old(self).ids().contains(x) ==> final(self).grouped(x),
    {
        let ghost s0 = *self;
        let dcc = self.data_channel_count();
        self.layout_by_id = self.group_by_id;
        self.group_channels = Ghost(dcc as nat);
        self.group_data_len = dcc;
        assert(cg_ids_below(self.writer.table()));
        match self.writer.init_mdf_file() {
            Ok(_) => {},
            Err(e) => {
                return Err(e);
            },
        }
        if self.group_by_id {
            let mut i: usize = 0;
            while i < self.buffers.len()
                invariant
                    self.writer.wf(),
                    self.writer.linkable(BlockId::Header, 32),
                    self.writer.id_at_start(),
                    self.writer.bytes().subrange(0, 64) == default_identification_bytes(),
                    self.buffers == s0.buffers,
                    self.group_by_id == s0.group_by_id,
                    self.max_data_len == s0.max_data_len,
                    self.fd_logged == s0.fd_logged,
                    !self.initialized,
                    i <= self.buffers@.len(),
                    self.channel_groups@.len() == i,
                    dcc <= MAX_FD_DATA_LEN,
                    self.group_channels@ == dcc,
                    self.group_data_len == dcc,
                    forall|k: int| 0 <= k < i ==> (#[trigger] self.channel_groups@[k]).0 == self.buffers@[k].0,
                    self.layout_by_id,
                    cg_ids_below(self.writer.table()),
                    forall|a: int, b: int|
                        0 <= a < b < self.channel_groups@.len() ==> (#[trigger] self.channel_groups@[a]).1
                            != (#[trigger] self.channel_groups@[b]).1,
                    forall|k: int|
                        0 <= k < self.channel_groups@.len() ==> self.writer.group_name(
                            (#[trigger] self.channel_groups@[k]).1,
                        ) == Some(raw_group_name(true, self.channel_groups@[k].0)),
                    forall|k: int|
                        0 <= k < self.channel_groups@.len() ==> self.writer.has_group(
                            (#[trigger] self.channel_groups@[k]).1,
                        ) && self.writer.open_block(self.channel_groups@[k].1) is None
                            && layout_end(self.writer.group_layout(self.channel_groups@[k].1))
                            <= 0xffff_ffff && self.writer.group_layout(self.channel_groups@[k].1)
                            == raw_layout(dcc as nat) && self.writer.group_channel_names(self.channel_groups@[k].1)
                            == raw_channel_names(dcc as nat),
                decreases self.buffers@.len() - i,
            {
                let can_id = self.buffers[i].0;
                let name = group_name_of(can_id);
                let ghost w0 = self.writer;
                let cg = match add_raw_group(&mut self.writer, name, dcc) {
                    Ok(c) => c,
                    Err(e) => {
                        return Err(e);
                    },
                };
                let ghost cgs = self.channel_groups@;
                self.channel_groups.push((can_id, cg));
                proof {
                    assert forall|k: int| 0 <= k < self.channel_groups@.len() implies self.writer.has_group(
                        (#[trigger] self.channel_groups@[k]).1,
                    ) && self.writer.open_block(self.channel_groups@[k].1) is None && layout_end(
                        self.writer.group_layout(self.channel_groups@[k].1),
                    ) <= 0xffff_ffff && self.writer.group_layout(self.channel_groups@[k].1) == raw_layout(
                        dcc as nat,
                    ) && self.writer.group_channel_names(self.channel_groups@[k].1) == raw_channel_names(dcc as nat) by {
                        if k < cgs.len() {
                            let c = cgs[k].1;
                            assert(self.channel_groups@[k] == cgs[k]);
                            assert(w0.has_group(c));
                            if c != cg {
                                assert(self.writer.group_layout(c) == w0.group_layout(c));
                                assert(self.writer.open_block(c) == w0.open_block(c));
                            }
                        }
                    }
                    assert forall|k: int| 0 <= k < self.channel_groups@.len() implies self.writer.group_name(
                        (#[trigger] self.channel_groups@[k]).1,
                    ) == Some(raw_group_name(true, self.channel_groups@[k].0)) by {
                        if k < cgs.len() {
                            assert(self.channel_groups@[k] == cgs[k]);
                            assert(w0.has_group(cgs[k].1));
                            assert(w0.group_name(cgs[k].1) == Some(raw_group_name(true, cgs[k].0)));
                        }
                    }
                }
                i = i + 1;
            }
        } else {
            proof {
                reveal_strlit("RawCAN");
            }
            let cg = match add_raw_group(&mut self.writer, String::from_str("RawCAN"), dcc) {
                Ok(c) => c,
                Err(e) => {
                    return Err(e);
                },
            };
            let mut i: usize = 0;
            while i < self.buffers.len()
                invariant
                    self.writer.wf(),
                    self.writer.linkable(BlockId::Header, 32),
                    self.writer.id_at_start(),
                    self.writer.bytes().subrange(0, 64) == default_identification_bytes(),
                    self.buffers == s0.buffers,
                    self.group_by_id == s0.group_by_id,
                    self.max_data_len == s0.max_data_len,
                    self.fd_logged == s0.fd_logged,
                    !self.initialized,
                    i <= self.buffers@.len(),
                    self.channel_groups@.len() == i,
                    self.writer.has_group(cg) && self.writer.open_block(cg) is None && layout_end(
                        self.writer.group_layout(cg),
                    ) <= 0xffff_ffff && self.writer.group_layout(cg) == raw_layout(dcc as nat),
                    self.writer.group_channel_names(cg) == raw_channel_names(dcc as nat),
                    self.writer.group_name(cg) == Some(raw_group_name(false, 0)),
                    !self.layout_by_id,
                    cg_ids_below(self.writer.table()),
                    self.group_channels@ == dcc,
                    self.group_data_len == dcc,
                    forall|k: int| 0 <= k < i ==> (#[trigger] self.channel_groups@[k]).0 == self.buffers@[k].0,
                    forall|k: int| 0 <= k < self.channel_groups@.len() ==> (#[trigger] self.channel_groups@[k]).1 == cg,
                decreases self.buffers@.len() - i,
            {
                self.channel_groups.push((self.buffers[i].0, cg));
                i = i + 1;
            }
        }
        self.initialized = true;
        proof {
            self.lemma_same_buffers(&s0);
            assert forall|x: u32| #[trigger] s0.ids().contains(x) implies self.grouped(x) by {
                let k = choose|k: int| 0 <= k < s0.ids().len() && s0.ids()[k] == x;
                assert(self.channel_groups@[k].0 == x);
            }
        }
        Ok(())
    }

    /// The first channel group recorded for `can_id`.
    /// Gives every buffered ID that has no channel group yet one: a group
    /// of its own when grouping by ID, else the group the others share.
    fn group_new_ids(&mut self) -> (r: Result<()>)
        requires
            old(self).wf(),
            old(self).initialized,
        ensures
            final(self).wf(),
            final(self).initialized,
            final(self).buffers == old(self).buffers,
            final(self).group_by_id == old(self).group_by_id,
            final(self).max_data_len == old(self).max_data_len,
            final(self).fd_logged == old(self).fd_logged,
            final(self).layout_by_id == old(self).layout_by_id,
            final(self).group_channels == old(self).group_channels,
            final(self).group_data_len == old(self).group_data_len,
            r is Ok,
            forall|k: int| 0 <= k < final(self).buffers@.len() ==> final(self).grouped(#[trigger] final(self).buffers@[k].0),
    {
        let dcc = self.group_data_len;
        let mut i: usize = 0;
        while i < self.buffers.len()
            invariant
                self.wf(),
                self.initialized,
                self.buffers == old(self).buffers,
                self.group_by_id == old(self).group_by_id,
                self.max_data_len == old(self).max_data_len,
                self.fd_logged == old(self).fd_logged,
                self.layout_by_id == old(self).layout_by_id,
                self.group_channels == old(self).group_channels,
                dcc == self.group_channels@,
                i <= self.buffers@.len(),
                forall|k: int| 0 <= k < i ==> self.grouped(#[trigger] self.buffers@[k].0),
            decreases self.buffers@.len() - i,
        {
            let id = self.buffers[i].0;
            if self.group_of(id).is_none() {
                let ghost s1 = *self;
                let cg = if !self.layout_by_id && self.channel_groups.len() > 0 {
                    self.channel_groups[0].1
                } else {
                    let name = if self.layout_by_id {
                        group_name_of(id)
                    } else {
                        proof {
                            reveal_strlit("RawCAN");
                        }
                        String::from_str("RawCAN")
                    };
                    let ghost w0 = self.writer;
                    let c = match add_raw_group(&mut self.writer, name, dcc) {
                        Ok(c) => c,
                        Err(e) => {
                            return Err(e);
                        },
                    };
                    proof {
                        assert forall|k: int| 0 <= k < self.channel_groups@.len() implies self.writer.has_group(
                            (#[trigger] self.channel_groups@[k]).1,
                        ) && self.writer.open_block(self.channel_groups@[k].1) is None
                            && layout_end(self.writer.group_layout(self.channel_groups@[k].1)) <= 0xffff_ffff
                            && self.writer.group_layout(self.channel_groups@[k].1) == raw_layout(dcc as nat)
                            && self.writer.group_channel_names(self.channel_groups@[k].1) == raw_channel_names(
                            dcc as nat,
                        ) by {
                            let g = self.channel_groups@[k].1;
                            assert(w0.has_group(g));
                            if g != c {
                                assert(self.writer.group_layout(g) == w0.group_layout(g));
                            }
                        }
                        assert forall|k: int| 0 <= k < self.channel_groups@.len() implies self.writer.group_name(
                            (#[trigger] self.channel_groups@[k]).1,
                        ) == Some(raw_group_name(self.layout_by_id, self.channel_groups@[k].0)) by {
                            let g = self.channel_groups@[k].1;
                            assert(w0.has_group(g));
                            assert(w0.group_name(g) == Some(raw_group_name(self.layout_by_id, self.channel_groups@[k].0)));
                        }
                        if !self.layout_by_id {
                            assert(name@ =~= raw_group_name(false, id));
                        }
                        assert(self.writer.group_name(c) == Some(raw_group_name(self.layout_by_id, id)));
                    }
                    c
                };
                proof {
                    assert(self.writer.group_name(cg) == Some(raw_group_name(self.layout_by_id, id)));
                }
                let ghost before = self.channel_groups@;
                self.channel_groups.push((id, cg));
                proof {
                    assert forall|k: int| 0 <= k < self.channel_groups@.len() implies self.writer.group_name(
                        (#[trigger] self.channel_groups@[k]).1,
                    ) == Some(raw_group_name(self.layout_by_id, self.channel_groups@[k].0)) by {
                        if k < before.len() {
                            assert(self.channel_groups@[k] == before[k]);
                        }
                    }
                    if !self.layout_by_id {
                        assert forall|k: int| 0 <= k < self.channel_groups@.len() implies (#[trigger] self.channel_groups@[k]).1
                            == self.channel_groups@[0].1 by {
                            if k < before.len() {
                                assert(self.channel_groups@[k] == before[k]);
                            }
                        }
                    }
                    assert(self.channel_groups@[before.len() as int].0 == id);
                    assert forall|k: int| 0 <= k < i + 1 implies self.grouped(#[trigger] self.buffers@[k].0) by {
                        if k < i {
                            let j = choose|j: int| 0 <= j < before.len() && (#[trigger] before[j]).0 == self.buffers@[k].0;
                            assert(self.channel_groups@[j] == before[j]);
                        } else {
                            assert(self.channel_groups@[before.len() as int].0 == self.buffers@[k].0);
                        }
                    }
                    assert(self.ids() == s1.ids());
                    self.lemma_same_buffers(&s1);
                }
            }
            i = i + 1;
        }
        Ok(())
    }

    fn group_of(&self, can_id: u32) -> (r: Option<usize>)
        ensures
            r matches Some(k) ==> k < self.channel_groups@.len() && self.channel_groups@[k as int].0 == can_id,
            r is None ==> !self.grouped(can_id),
    {
        let mut k: usize = 0;
        while k < self.channel_groups.len()
            invariant
                k <= self.channel_groups@.len(),
                forall|j: int| 0 <= j < k ==> (#[trigger] self.channel_groups@[j]).0 != can_id,
            decreases self.channel_groups@.len() - k,
        {
            if self.channel_groups[k].0 == can_id {
                return Some(k);
            }
            k = k + 1;
        }
        None
    }

    /// Writes the frames buffered for `can_id` as one data block of its
    /// channel group; nothing is written when the ID has no group or no
    /// frames. This never fails. Below `bound`, above which no channel or
    /// data group block lies, the image only grows: the records of the
    /// frames are appended, one after the other.
    fn write_frames(&mut self, can_id: u32, Ghost(bound): Ghost<int>) -> (r: Result<()>)
        requires
            old(self).wf(),
            old(self).initialized,
            old(self).groups_below(bound),
            bound <= old(self).writer.bytes().len(),
        ensures
            final(self).wf(),
            r is Ok,
            final(self).buffers == old(self).buffers,
            final(self).channel_groups == old(self).channel_groups,
            final(self).initialized == old(self).initialized,
            final(self).group_by_id == old(self).group_by_id,
            final(self).max_data_len == old(self).max_data_len,
            final(self).group_channels == old(self).group_channels,
            final(self).group_data_len == old(self).group_data_len,
            final(self).layout_by_id == old(self).layout_by_id,
            final(self).writer.extends(&old(self).writer),
            final(self).groups_below(bound),
            forall|j: int| bound <= j < old(self).writer.bytes().len() ==> #[trigger] final(self).writer.bytes()[j]
                == old(self).writer.bytes()[j],
            old(self).grouped(can_id) && old(self).frames(can_id).len() > 0 ==> holds_records(
                final(self).writer.bytes(),
                old(self).writer.bytes().len() as int,
                old(self).frames(can_id),
                can_id,
                old(self).group_channels@,
            ),
    {
        let ghost s0 = *self;
        let gi = match self.group_of(can_id) {
            Some(k) => k,
            None => {
                return Ok(());
            },
        };
        let cg = self.channel_groups[gi].1;
        let mut bi: usize = 0;
        while bi < self.buffers.len() && self.buffers[bi].0 != can_id
            invariant
                bi <= self.buffers@.len(),
                forall|k: int| 0 <= k < bi ==> (#[trigger] self.buffers@[k]).0 != can_id,
            decreases self.buffers@.len() - bi,
        {
            bi = bi + 1;
        }
        if bi >= self.buffers.len() || self.buffers[bi].1.len() == 0 {
            proof {
                if bi < self.buffers@.len() {
                    self.lemma_slot(bi as int);
                } else {
                    assert(!self.ids().contains(can_id)) by {
                        if self.ids().contains(can_id) {
                            let k = choose|k: int| 0 <= k < self.ids().len() && self.ids()[k] == can_id;
                            assert(self.buffers@[k].0 == can_id);
                        }
                    }
                }
            }
            return Ok(());
        }
        let dcc = self.data_channel_count();
        let ghost w0 = self.writer;
        let ghost n0 = self.group_channels@;
        let ghost fs = self.buffers@[bi as int].1@.map_values(|f: RawFrame| f@);
        proof {
            self.lemma_slot(bi as int);
            assert(self.writer.has_group(self.channel_groups@[gi as int].1));
            self.writer.lemma_start_len();
            self.writer.lemma_group_blocks(cg);
            lemma_raw_layout_end(n0);
        }
        match self.writer.start_data_block_for_cg(cg, 0) {
            Ok(()) => {},
            Err(e) => {
                return Err(e);
            },
        }
        let ghost w1 = self.writer;
        let ghost o1 = w1.open_block(cg)->0;
        let ghost dg_pos = w0.position_of(w0.group_data_group(cg))->0;
        proof {
            assert(w0.bytes().len() >= 64);
            assert(self.writer.open_block(cg) matches Some(o) && o.pos >= w0.bytes().len());
            crate::blocks::common::lemma_le_roundtrips();
            assert(s0.channel_groups@[gi as int].1 == cg);
            assert(dg_pos + 64 <= bound);
            let b0 = w0.bytes() + zeros(crate::writer::align_pad(w0.bytes().len() as int) as nat) + open_dt_header();
            lemma_splice_keeps(b0, dg_pos + 56, seq![0u8]);
            assert(open_dt_header().len() == 24);
            assert(w1.bytes().len() == o1.pos + 24);
            assert forall|j: int| bound <= j < w0.bytes().len() implies #[trigger] w1.bytes()[j] == w0.bytes()[j] by {
                assert(b0[j] == w0.bytes()[j]);
            }
        }
        let mut f: usize = 0;
        while f < self.buffers[bi].1.len()
            invariant
                self.writer.wf(),
                self.writer.extends(&w0),
                self.writer.keeps_other_groups(&w0, cg),
                self.writer.group_layout(cg) == w0.group_layout(cg),
                self.writer.group_channel_names(cg) == w0.group_channel_names(cg),
                self.writer.group_data_group(cg) == w0.group_data_group(cg),
                self.writer.open_block(cg) == Some(OpenDataBlock { record_count: f as u64, ..o1 }),
                o1.pos >= 64,
                o1.record_id_len == 0,
                o1.record_size == 14 + n0,
                self.writer.keeps_start(&w0),
                self.writer.table() == w1.table(),
                self.writer.bytes() == w1.bytes() + raw_records(fs.take(f as int), can_id, n0),
                self.buffers == s0.buffers,
                self.channel_groups == s0.channel_groups,
                self.initialized == s0.initialized,
                self.group_by_id == s0.group_by_id,
                self.max_data_len == s0.max_data_len,
                self.group_channels == s0.group_channels,
                self.group_data_len == s0.group_data_len,
                self.layout_by_id == s0.layout_by_id,
                self.writer.group_names_map() == s0.writer.group_names_map(),
                self.writer.cg_kept(&s0.writer),
                w0.group_layout(cg) == raw_layout(n0),
                n0 <= dcc,
                n0 <= MAX_FD_DATA_LEN,
                bi < self.buffers@.len(),
                fs == self.buffers@[bi as int].1@.map_values(|f: RawFrame| f@),
                f <= self.buffers@[bi as int].1@.len(),
            decreases self.buffers@[bi as int].1@.len() - f,
        {
            let values = frame_values(&self.buffers[bi].1[f], can_id, dcc);
            let ghost wm = self.writer;
            match self.writer.write_record(cg, values.as_slice()) {
                Ok(()) => {},
                Err(e) => {
                    return Err(e);
                },
            }
            proof {
                self.writer.lemma_extends_trans(&wm, &w0);
                self.writer.lemma_keeps_trans(&wm, &w0, cg);
                let fr = fs[f as int];
                lemma_raw_values_prefix(fr, can_id, n0, dcc as nat);
                lemma_encode_values_prefix(
                    raw_layout(n0),
                    values@,
                    raw_record_values(fr, can_id, n0),
                    0,
                    (14 + n0) as nat,
                );
                lemma_raw_record_encoding(fr, can_id, n0);
                assert(fs.take(f + 1).drop_last() =~= fs.take(f as int));
                assert(fs.take(f + 1).last() == fr);
                assert(self.writer.bytes() =~= w1.bytes() + raw_records(fs.take(f + 1), can_id, n0));
            }
            f = f + 1;
        }
        let ghost wf0 = self.writer;
        proof {
            assert(fs.take(f as int) =~= fs);
            lemma_raw_records_len(fs, can_id, n0);
        }
        match self.writer.finish_data_block(cg) {
            Ok(()) => {},
            Err(e) => {
                return Err(e);
            },
        }
        proof {
            self.writer.lemma_extends_trans(&wf0, &w0);
            self.writer.lemma_keeps_trans(&wf0, &w0, cg);
            assert forall|k: int| 0 <= k < self.channel_groups@.len() implies self.writer.has_group(
                (#[trigger] self.channel_groups@[k]).1,
            ) && self.writer.open_block(self.channel_groups@[k].1) is None && layout_end(
                self.writer.group_layout(self.channel_groups@[k].1),
            ) <= 0xffff_ffff && self.writer.group_layout(self.channel_groups@[k].1) == raw_layout(
                self.group_channels@,
            ) && self.writer.group_channel_names(self.channel_groups@[k].1) == raw_channel_names(
                self.group_channels@,
            ) by {
                let c = self.channel_groups@[k].1;
                assert(w0.has_group(c));
                assert(w0.group_layout(c) == raw_layout(self.group_channels@));
                assert(w0.group_channel_names(c) == raw_channel_names(self.group_channels@));
                if c != cg {
                    assert(self.writer.group_layout(c) == w0.group_layout(c));
                    assert(self.writer.open_block(c) == w0.open_block(c));
                }
            }
            self.lemma_same_buffers(&s0);
            let cgs = self.channel_groups@;
            let dblk = BlockId::DataBlock(kind_count(w0.table(), 11) as usize);
            let pdt = (w0.bytes().len() + crate::writer::align_pad(w0.bytes().len() as int)) as u64;
            assert forall|k: int| 0 <= k < cgs.len() implies w0.has_group(#[trigger] cgs[k].1)
                && wf0.group_data_group(cgs[k].1) == w0.group_data_group(cgs[k].1)
                && self.writer.group_data_group(cgs[k].1) == w0.group_data_group(cgs[k].1) by {
                let c = cgs[k].1;
                assert(s0.channel_groups@[k] == cgs[k]);
            }
            lemma_groups_below_kept(cgs, wf0, w0, bound, dblk, pdt);
            lemma_groups_below_kept(cgs, self.writer, w0, bound, dblk, pdt);
            assert(cgs[gi as int].1 == cg);
            let o = OpenDataBlock { record_count: f as u64, ..o1 };
            let dgp = wf0.position_of(wf0.group_data_group(cg))->0;
            let cgp = wf0.position_of(cg)->0;
            let b = wf0.bytes();
            let len = fs.len() * (14 + n0);
            assert(b.len() == o1.pos + 24 + len);
            wf0.lemma_group_blocks(cg);
            lemma_finished_keeps(b, o, dgp, cgp);
            let p = o1.pos + 24;
            assert forall|j: int| 0 <= j < len implies self.writer.bytes()[p + j] == raw_records(fs, can_id, n0)[j] by {
                assert(b[p + j] == raw_records(fs, can_id, n0)[j]);
            }
            assert(self.writer.bytes().subrange(p, p + len) =~= raw_records(fs, can_id, n0));
            assert(holds_records(self.writer.bytes(), w0.bytes().len() as int, fs, can_id, n0));
            assert forall|j: int| bound <= j < w0.bytes().len() implies #[trigger] self.writer.bytes()[j] == w0.bytes()[j] by {
                assert(b[j] == w1.bytes()[j]);
                assert(w1.bytes()[j] == w0.bytes()[j]);
            }
        }
        Ok(())
    }

    /// Whether the records of the frames buffered at position `k`, when
    /// their ID has a channel group, are held in `b` at or after `from`.
    closed spec fn flushed(&self, b: Seq<u8>, from: int, k: int) -> bool {
        let x = self.buffers@[k].0;
        self.grouped(x) && self.frames(x).len() > 0 ==> holds_records(
            b,
            from,
            self.frames(x),
            x,
            self.group_channels@,
        )
    }

    /// Writes every buffered frame to the image, first writing the MDF
    /// structure if it is not there yet, then empties the buffers (the
    /// CAN IDs stay known). An ID first logged after the structure was
    /// written gets a channel group then: one of its own when grouping by
    /// ID, else the shared one. This never fails. The records of the
    /// frames of every ID are then held in the image, one after the other.
    pub fn flush(&mut self) -> (r: Result<()>)
        requires
            old(self).wf(),
        ensures
            final(self).wf(),
            r is Ok,
            final(self).spec_initialized(),
            final(self).ids() == old(self).ids(),
            forall|x: u32| #[trigger] final(self).frames(x).len() == 0,
            final(self).spec_max_data_len() == old(self).spec_max_data_len(),
            final(self).spec_group_by_id() == old(self).spec_group_by_id(),
            final(self).record_data_len() == old(self).record_data_len(),
            final(self).spec_layout_by_id() == if old(self).spec_initialized() {
                old(self).spec_layout_by_id()
            } else {
                old(self).spec_group_by_id()
            },
            forall|x: u32| #[trigger] final(self).ids().contains(x) ==> final(self).grouped(x),
            forall|x: u32|
                old(self).frames(x).len() > 0 ==> #[trigger] holds_records(
                    final(self).image(),
                    0,
                    old(self).frames(x),
                    x,
                    old(self).record_data_len(),
                ),
    {
        let ghost s0 = *self;
        if !self.initialized {
            match self.initialize_mdf() {
                Ok(()) => {},
                Err(e) => {
                    return Err(e);
                },
            }
        }
        match self.group_new_ids() {
            Ok(()) => {},
            Err(e) => {
                return Err(e);
            },
        }
        let ghost si = *self;
        proof {
            si.lemma_same_buffers(&s0);
        }
        let ghost bound = self.writer.bytes().len() as int;
        proof {
            assert forall|k: int| 0 <= k < self.channel_groups@.len() implies self.writer.position_of(
                #[trigger] self.channel_groups@[k].1,
            ) is Some && self.writer.position_of(self.channel_groups@[k].1)->0 + 104 <= bound
                && self.writer.position_of(self.writer.group_data_group(self.channel_groups@[k].1)) is Some
                && self.writer.position_of(self.writer.group_data_group(self.channel_groups@[k].1))->0 + 64
                <= bound by {
                self.writer.lemma_group_blocks(self.channel_groups@[k].1);
            }
        }
        let mut i: usize = 0;
        while i < self.buffers.len()
            invariant
                self.wf(),
                self.initialized,
                self.buffers == s0.buffers,
                self.group_by_id == s0.group_by_id,
                self.max_data_len == s0.max_data_len,
                self.groups_below(bound),
                bound <= self.writer.bytes().len(),
                i <= self.buffers@.len(),
                self.channel_groups == si.channel_groups,
                self.layout_by_id == si.layout_by_id,
                self.group_channels == si.group_channels,
                self.group_data_len == si.group_data_len,
                si.buffers == s0.buffers,
                forall|k: int| 0 <= k < i ==> #[trigger] si.flushed(self.writer.bytes(), bound, k),
            decreases self.buffers@.len() - i,
        {
            let id = self.buffers[i].0;
            let ghost sm = *self;
            match self.write_frames(id, Ghost(bound)) {
                Ok(()) => {},
                Err(e) => {
                    return Err(e);
                },
            }
            proof {
                sm.lemma_same_buffers(&si);
                assert forall|k: int| 0 <= k < i + 1 implies #[trigger] si.flushed(self.writer.bytes(), bound, k) by {
                    let x = si.buffers@[k].0;
                    if si.grouped(x) && si.frames(x).len() > 0 {
                        assert(sm.grouped(x));
                        if k < i {
                            assert(si.flushed(sm.writer.bytes(), bound, k));
                            lemma_holds_records_kept(
                                sm.writer.bytes(),
                                self.writer.bytes(),
                                bound,
                                si.frames(x),
                                x,
                                si.group_channels@,
                            );
                        } else {
                            lemma_holds_records_from(
                                self.writer.bytes(),
                                sm.writer.bytes().len() as int,
                                bound,
                                si.frames(x),
                                x,
                                si.group_channels@,
                            );
                        }
                    }
                }
            }
            i = i + 1;
        }
        let ghost s1 = *self;
        let mut i: usize = 0;
        while i < self.buffers.len()
            invariant
                self.writer == s1.writer,
                self.layout_by_id == s1.layout_by_id,
                self.group_channels == s1.group_channels,
                self.group_data_len == s1.group_data_len,
                self.channel_groups == s1.channel_groups,
                self.initialized == s1.initialized,
                self.group_by_id == s1.group_by_id,
                self.max_data_len == s1.max_data_len,
                self.buffers@.len() == s1.buffers@.len(),
                i <= self.buffers@.len(),
                forall|k: int| 0 <= k < self.buffers@.len() ==> (#[trigger] self.buffers@[k]).0 == s1.buffers@[k].0,
                forall|k: int| 0 <= k < i ==> (#[trigger] self.buffers@[k]).1@.len() == 0,
                forall|k: int| i <= k < self.buffers@.len() ==> (#[trigger] self.buffers@[k]).1 == s1.buffers@[k].1,
            decreases self.buffers@.len() - i,
        {
            self.buffers[i].1.clear();
            i = i + 1;
        }
        proof {
            assert(self.ids() =~= s1.ids());
            assert(self.wf_order());
            assert forall|x: u32| #[trigger] self.frames(x).len() == 0 by {
                if self.ids().contains(x) {
                    let k = choose|k: int| 0 <= k < self.ids().len() && self.ids()[k] == x;
                    self.lemma_slot_order(k);
                }
            }
            lemma_sum_zero(self.ids(), |id: u32| self.frames(id).len());
            s1.lemma_same_buffers(&s0);
            assert forall|x: u32|
                s0.frames(x).len() > 0 implies #[trigger] holds_records(
                self.image(),
                0,
                s0.frames(x),
                x,
                s0.record_data_len(),
            ) by {
                assert(s0.ids().contains(x));
                let k = choose|k: int| 0 <= k < s0.ids().len() && s0.ids()[k] == x;
                assert(si.buffers@[k].0 == x);
                assert(si.grouped(x));
                assert(si.flushed(s1.writer.bytes(), bound, k));
                lemma_holds_records_from(s1.writer.bytes(), bound, 0, si.frames(x), x, si.group_channels@);
            }
        }
        Ok(())
    }

    /// Flushes the buffered frames and hands out the finished MDF image.
    /// This never fails. The image starts with the identification block
    /// and holds the records of the buffered frames of every ID, one after
    /// the other.
    pub fn finalize(self) -> (r: Result<Vec<u8>>)
        requires
            self.wf(),
        ensures
            r matches Ok(b) && b@.len() >= 64 && b@.subrange(0, 64) == default_identification_bytes(),
            r matches Ok(b) ==> forall|x: u32|
                self.frames(x).len() > 0 ==> #[trigger] holds_records(b@, 0, self.frames(x), x, self.record_data_len()),
    {
        let mut l = self;
        match l.flush() {
            Ok(()) => {},
            Err(e) => {
                return Err(e);
            },
        }
        proof {
            l.writer.lemma_start_len();
        }
        let r = l.writer.finalize();
        proof {
            assert(r matches Ok(b) && b@ == l.image());
        }
        r
    }
}

/// A sum of zeros is zero.
proof fn lemma_sum_zero(s: Seq<u32>, f: spec_fn(u32) -> nat)
    requires
        forall|x: u32| #[trigger] f(x) == 0,
    ensures
        sum_over(s, f) == 0,
    decreases s.len(),
{
    if s.len() > 0 {
        lemma_sum_zero(s.drop_last(), f);
    }
}

} // verus!
