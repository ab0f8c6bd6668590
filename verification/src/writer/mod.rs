//! In-memory MDF4 writer. The file image is built in a byte vector; blocks
//! are appended at eight-byte aligned positions and linked by patching
//! their link fields afterwards. Writing the image to disk is left to the
//! caller.
use crate::blocks::common::{spec_i16_to_le_bytes, zeros};
use crate::error::{Error, Result};
use crate::text::concat3;
use vstd::bytes::*;
use vstd::prelude::*;

pub mod data;
pub mod init;

verus! {


/// Identifies a block written by the writer.
#[derive(Debug, Clone, Copy, PartialEq, Eq, Structural)]
pub enum BlockId {
    /// The identification block
    Identification,
    /// The header block
    Header,
    /// The n-th data group
    DataGroup(usize),
    /// The n-th channel group
    ChannelGroup(usize),
    /// The n-th channel
    Channel(usize),
    /// The n-th conversion
    Conversion(usize),
    /// Text entry `.1` of the conversion `.0`
    ConversionText(usize, usize),
    /// The default text of the conversion `.0`
    ConversionDefaultText(usize),
    /// The name text of the channel `.0`
    ChannelName(usize),
    /// The n-th channel unit text
    ChannelUnit(usize),
    /// The n-th channel group name text
    GroupName(usize),
    /// The n-th data block
    DataBlock(usize),
    /// The n-th data list block
    DataList(usize),
    /// The n-th source information block
    Source(usize),
    /// The name text of the n-th source information block
    SourceName(usize),
}

/// The kind of a block identifier, ignoring its numbers.
pub open spec fn kind_of(id: BlockId) -> int {
    match id {
        BlockId::Identification => 0,
        BlockId::Header => 1,
        BlockId::DataGroup(_) => 2,
        BlockId::ChannelGroup(_) => 3,
        BlockId::Channel(_) => 4,
        BlockId::Conversion(_) => 5,
        BlockId::ConversionText(_, _) => 6,
        BlockId::ConversionDefaultText(_) => 7,
        BlockId::ChannelName(_) => 8,
        BlockId::ChannelUnit(_) => 9,
        BlockId::GroupName(_) => 10,
        BlockId::DataBlock(_) => 11,
        BlockId::DataList(_) => 12,
        BlockId::Source(_) => 13,
        BlockId::SourceName(_) => 14,
    }
}

/// The position recorded for `id` in a table of block positions.
pub open spec fn lookup(t: Seq<(BlockId, u64)>, id: BlockId) -> Option<u64>
    decreases t.len(),
{
    if t.len() == 0 {
        None
    } else if t[0].0 == id {
        Some(t[0].1)
    } else {
        lookup(t.drop_first(), id)
    }
}

/// The table after recording position `p` for `id`: an existing entry for
/// `id` is replaced, otherwise the entry is appended.
pub open spec fn record_position(t: Seq<(BlockId, u64)>, id: BlockId, p: u64) -> Seq<
    (BlockId, u64),
>
    decreases t.len(),
{
    if t.len() == 0 {
        seq![(id, p)]
    } else if t[0].0 == id {
        t.update(0, (id, p))
    } else {
        seq![t[0]] + record_position(t.drop_first(), id, p)
    }
}

/// The number of entries of kind `k` in a table of block positions.
pub open spec fn kind_count(t: Seq<(BlockId, u64)>, k: int) -> nat
    decreases t.len(),
{
    if t.len() == 0 {
        0
    } else {
        kind_count(t.drop_last(), k) + (if kind_of(t.last().0) == k {
            1nat
        } else {
            0nat
        })
    }
}

/// The kind code of a block identifier.
pub fn kind_code(id: &BlockId) -> (r: u8)
    ensures
        r as int == kind_of(*id),
{
    match id {
        BlockId::Identification => 0,
        BlockId::Header => 1,
        BlockId::DataGroup(_) => 2,
        BlockId::ChannelGroup(_) => 3,
        BlockId::Channel(_) => 4,
        BlockId::Conversion(_) => 5,
        BlockId::ConversionText(_, _) => 6,
        BlockId::ConversionDefaultText(_) => 7,
        BlockId::ChannelName(_) => 8,
        BlockId::ChannelUnit(_) => 9,
        BlockId::GroupName(_) => 10,
        BlockId::DataBlock(_) => 11,
        BlockId::DataList(_) => 12,
        BlockId::Source(_) => 13,
        BlockId::SourceName(_) => 14,
    }
}

/// Whether every channel group identifier recorded in `t` is numbered
/// below the count of channel group entries, so that the next number is
/// free.
pub open spec fn cg_ids_below(t: Seq<(BlockId, u64)>) -> bool {
    forall|n: usize| #[trigger] lookup(t, BlockId::ChannelGroup(n)) is Some ==> n < kind_count(t, 3)
}

/// Counting the entries of a kind from the front.
proof fn lemma_kind_count_front(t: Seq<(BlockId, u64)>, k: int)
    requires
        t.len() > 0,
    ensures
        kind_count(t, k) == kind_count(t.drop_first(), k) + (if kind_of(t[0].0) == k {
            1nat
        } else {
            0nat
        }),
    decreases t.len(),
{
    let a: nat = if kind_of(t[0].0) == k {
        1nat
    } else {
        0nat
    };
    let z: nat = if kind_of(t.last().0) == k {
        1nat
    } else {
        0nat
    };
    assert(kind_count(t, k) == kind_count(t.drop_last(), k) + z);
    if t.len() == 1 {
        assert(t.drop_last().len() == 0);
        assert(t.drop_first().len() == 0);
        assert(kind_count(t.drop_last(), k) == 0);
        assert(kind_count(t.drop_first(), k) == 0);
        assert(t.last() == t[0]);
    } else {
        lemma_kind_count_front(t.drop_last(), k);
        assert(t.drop_last().drop_first() =~= t.drop_first().drop_last());
        assert(t.drop_first().last() == t.last());
        assert(t.drop_last()[0] == t[0]);
        assert(kind_count(t.drop_first(), k) == kind_count(t.drop_first().drop_last(), k) + z);
    }
}

/// Recording a position adds an entry of its kind exactly when the
/// identifier was not recorded.
proof fn lemma_record_count(t: Seq<(BlockId, u64)>, id: BlockId, p: u64, k: int)
    ensures
        kind_count(record_position(t, id, p), k) == kind_count(t, k) + (if lookup(t, id) is None && kind_of(id)
            == k {
            1nat
        } else {
            0nat
        }),
    decreases t.len(),
{
    let r = record_position(t, id, p);
    if t.len() == 0 {
        assert(r.len() == 1);
        assert(r.drop_last().len() == 0);
        assert(kind_count(r.drop_last(), k) == 0);
        assert(r.last() == (id, p));
    } else if t[0].0 == id {
        lemma_kind_count_front(r, k);
        lemma_kind_count_front(t, k);
        assert(r.drop_first() =~= t.drop_first());
    } else {
        lemma_kind_count_front(r, k);
        lemma_kind_count_front(t, k);
        lemma_record_count(t.drop_first(), id, p, k);
        assert(r.drop_first() =~= record_position(t.drop_first(), id, p));
    }
}

/// Recording a block that is not a channel group, or the channel group
/// numbered by the count, keeps every channel group number below the count.
pub proof fn lemma_record_cg_ids(t: Seq<(BlockId, u64)>, id: BlockId, p: u64)
    requires
        cg_ids_below(t),
        id is ChannelGroup ==> kind_count(t, 3) <= usize::MAX && id == BlockId::ChannelGroup(kind_count(t, 3) as usize),
    ensures
        cg_ids_below(record_position(t, id, p)),
{
    lemma_record_count(t, id, p, 3);
    if id is ChannelGroup {
        assert(lookup(t, BlockId::ChannelGroup(kind_count(t, 3) as usize)) is None);
    }
    assert forall|n: usize| #[trigger] lookup(record_position(t, id, p), BlockId::ChannelGroup(n)) is Some implies n
        < kind_count(record_position(t, id, p), 3) by {
        lemma_record_lookup(t, id, p, BlockId::ChannelGroup(n));
    }
}

/// Recording a block in a writer keeps the channel group numbering free
/// when it is not a channel group or is the one numbered by the count.
pub proof fn lemma_cg_record(s: &MdfWriter, f: &MdfWriter, id: BlockId, p: u64)
    requires
        f.table() == record_position(s.table(), id, p),
        id is ChannelGroup ==> kind_count(s.table(), 3) <= usize::MAX && id == BlockId::ChannelGroup(
            kind_count(s.table(), 3) as usize,
        ),
    ensures
        f.cg_kept(s),
{
    if cg_ids_below(s.table()) {
        lemma_record_cg_ids(s.table(), id, p);
    }
}

/// Recording a position makes it the one looked up for that identifier and
/// leaves the others unchanged.
pub proof fn lemma_record_lookup(t: Seq<(BlockId, u64)>, id: BlockId, p: u64, x: BlockId)
    ensures
        lookup(record_position(t, id, p), x) == (if x == id {
            Some(p)
        } else {
            lookup(t, x)
        }),
    decreases t.len(),
{
    let r = record_position(t, id, p);
    if t.len() == 0 {
        assert(r[0] == (id, p));
        assert(r.drop_first() =~= Seq::<(BlockId, u64)>::empty());
        assert(lookup(r.drop_first(), x) is None);
    } else if t[0].0 == id {
        assert(r[0] == (id, p));
        assert(r.drop_first() =~= t.drop_first());
    } else {
        lemma_record_lookup(t.drop_first(), id, p, x);
        assert(r[0] == t[0]);
        assert(r.drop_first() =~= record_position(t.drop_first(), id, p));
    }
}

/// Every byte of `b` after replacing the `n` bytes at `off` with `v`.
pub open spec fn splice(b: Seq<u8>, off: int, v: Seq<u8>) -> Seq<u8> {
    b.subrange(0, off) + v + b.subrange(off + v.len(), b.len() as int)
}

/// The number of zero bytes that align `n` to eight.
pub open spec fn align_pad(n: int) -> int {
    (8 - n % 8) % 8
}

/// The record layout and the data-writing state of a channel group.
pub struct GroupState {
    /// The channel group
    pub cg: BlockId,
    /// The data group that holds it
    pub dg: BlockId,
    /// The number of record bytes that the channels added so far occupy
    pub record_bytes: u64,
    /// The layout of the channels of the group, in the order they were added
    pub channels: Vec<ChannelLayout>,
    /// The names of the channels of the group, in the order they were added
    pub names: Ghost<Seq<Option<Seq<char>>>>,
    /// The data block being filled, if any
    pub open: Option<OpenDataBlock>,
}

/// Where a channel's value lies within a record.
#[derive(Clone, Copy)]
pub struct ChannelLayout {
    /// How the value is encoded
    pub data_type: crate::blocks::DataType,
    /// First byte of the value within the record (after the record ID)
    pub byte_offset: u32,
    /// First bit of the value within its first byte
    pub bit_offset: u8,
    /// Number of bits of the value
    pub bit_count: u32,
}

/// A data block being filled with records.
#[derive(Clone, Copy)]
pub struct OpenDataBlock {
    /// Position of the data block in the file
    pub pos: u64,
    /// Size of each record in bytes, record ID included
    pub record_size: u64,
    /// Length of the record ID that prefixes each record
    pub record_id_len: u8,
    /// Number of records written so far
    pub record_count: u64,
}

/// Writer for creating MDF4 files in memory.
pub struct MdfWriter {
    buf: Vec<u8>,
    block_positions: Vec<(BlockId, u64)>,
    last_dg: Option<BlockId>,
    groups: Vec<GroupState>,
    /// The names given to channel groups.
    pub(crate) group_names: Ghost<Map<BlockId, Seq<char>>>,
    /// The units given to channels.
    pub(crate) channel_units: Ghost<Map<BlockId, Seq<char>>>,
}

/// Bytes that a block of each kind occupies at least, as written by this
/// writer; links and fields are patched only within this span.
pub open spec fn block_span(id: BlockId) -> int {
    match id {
        BlockId::Identification => 64,
        BlockId::Header => 104,
        BlockId::DataGroup(_) => 64,
        BlockId::ChannelGroup(_) => 104,
        BlockId::Channel(_) => 160,
        _ => 0,
    }
}

impl MdfWriter {
    /// The file image written so far.
    pub closed spec fn bytes(&self) -> Seq<u8> {
        self.buf@
    }

    /// The table of recorded block positions.
    pub closed spec fn table(&self) -> Seq<(BlockId, u64)> {
        self.block_positions@
    }

    /// The recorded position of block `id`.
    pub open spec fn position_of(&self, id: BlockId) -> Option<u64> {
        lookup(self.table(), id)
    }

    /// The writer's internal consistency: every recorded block lies within
    /// the image, and every group and channel entry refers to recorded blocks.
    pub closed spec fn wf(&self) -> bool {
        &&& forall|i: int|
            0 <= i < self.block_positions@.len() ==> #[trigger] self.block_positions@[i].1
                + block_span(self.block_positions@[i].0) <= self.buf@.len()
        &&& forall|i: int|
            0 <= i < self.groups@.len() ==> self.group_wf(#[trigger] self.groups@[i])
        &&& self.unique_groups()
        &&& self.last_dg matches Some(d) ==> d is DataGroup && lookup(self.block_positions@, d) is Some
    }

    /// No two groups share a channel group.
    pub closed spec fn unique_groups(&self) -> bool {
        forall|i: int, j: int|
            0 <= i < j < self.groups@.len() ==> #[trigger] self.groups@[i].cg != #[trigger] self.groups@[j].cg
    }

    /// Consistency of one group's state.
    pub closed spec fn group_wf(&self, g: GroupState) -> bool {
        &&& g.cg is ChannelGroup
        &&& g.dg is DataGroup
        &&& lookup(self.block_positions@, g.cg) is Some
        &&& lookup(self.block_positions@, g.dg) is Some
        &&& g.open matches Some(o) ==> o.pos + 24 <= self.buf@.len() && o.record_size <= usize::MAX
            && o.record_id_len <= o.record_size
    }

    /// Creates an empty writer.
    pub fn new() -> (w: Self)
        ensures
            w.wf(),
            w.bytes() == Seq::<u8>::empty(),
            w.table() == Seq::<(BlockId, u64)>::empty(),
            forall|cg: BlockId| !w.has_group(cg),
            w.last_dg_id() is None,
    {
        MdfWriter {
            buf: Vec::new(),
            block_positions: Vec::new(),
            last_dg: None,
            groups: Vec::new(),
            group_names: Ghost(Map::empty()),
            channel_units: Ghost(Map::empty()),
        }
    }

    /// Creates an empty writer whose buffer starts with room for `capacity`
    /// bytes.
    pub fn with_capacity(capacity: usize) -> (w: Self)
        ensures
            w.wf(),
            w.bytes() == Seq::<u8>::empty(),
            w.table() == Seq::<(BlockId, u64)>::empty(),
            forall|cg: BlockId| !w.has_group(cg),
            w.last_dg_id() is None,
    {
        MdfWriter {
            buf: Vec::with_capacity(capacity),
            block_positions: Vec::new(),
            last_dg: None,
            groups: Vec::new(),
            group_names: Ghost(Map::empty()),
            channel_units: Ghost(Map::empty()),
        }
    }

    /// Appends a block at the next eight-byte aligned position, zero-padding
    /// the gap, and returns that position. This never fails.
    pub fn write_block(&mut self, block_bytes: &[u8]) -> (r: Result<u64>)
        requires
            old(self).wf(),
        ensures
            final(self).group_names_map() == old(self).group_names_map(),
            final(self).channel_units_map() == old(self).channel_units_map(),
            final(self).wf(),
            r matches Ok(p) && p == old(self).bytes().len() + align_pad(
                old(self).bytes().len() as int,
            ),
            final(self).bytes() == old(self).bytes() + zeros(
                align_pad(old(self).bytes().len() as int) as nat,
            ) + block_bytes@,
            final(self).table() == old(self).table(),
            r matches Ok(p) ==> p % 8 == 0,
            final(self).same_layout(*old(self)),
            final(self).keeps_start(old(self)),
    {
        let pad = (8 - (self.buf.len() % 8)) % 8;
        let mut i: usize = 0;
        let ghost start = self.buf@;
        while i < pad
            invariant
                self.group_names == old(self).group_names,
                self.channel_units == old(self).channel_units,
                i <= pad,
                pad < 8,
                self.buf@ == start + zeros(i as nat),
                self.block_positions == old(self).block_positions,
                self.groups == old(self).groups,
                self.last_dg == old(self).last_dg,
                start == old(self).buf@,
            decreases pad - i,
        {
            self.buf.push(0u8);
            i = i + 1;
            assert(self.buf@ =~= start + zeros(i as nat));
        }
        let block_start = self.buf.len() as u64;
        crate::blocks::common::push_slice(&mut self.buf, block_bytes);
        proof {
            assert forall|k: int| 0 <= k < self.groups@.len() implies self.group_wf(
                #[trigger] self.groups@[k],
            ) by {
                assert(old(self).group_wf(old(self).groups@[k]));
            }
            if old(self).id_at_start() {
                old(self).lemma_start_len();
                assert(self.bytes().subrange(0, 64) =~= old(self).bytes().subrange(0, 64));
            }
        }
        Ok(block_start)
    }

    /// Whether `self` differs from `o` only in the image bytes (which may
    /// have grown) and the block table.
    pub closed spec fn same_layout(&self, o: Self) -> bool {
        &&& self.groups == o.groups
        &&& self.last_dg == o.last_dg
        &&& self.buf@.len() >= o.buf@.len()
    }

    /// Every writer has its own layout.
    pub proof fn lemma_same_layout_refl(&self)
        ensures
            self.same_layout(*self),
    {
    }

    /// Looks up the index of `id` in the block table.
    fn find_block(&self, id: BlockId) -> (r: Option<usize>)
        ensures
            r is None ==> lookup(self.block_positions@, id) is None,
            r matches Some(i) ==> i < self.block_positions@.len() && self.block_positions@[i as int].0
                == id && lookup(self.block_positions@, id) == Some(
                self.block_positions@[i as int].1,
            ) && forall|j: int| 0 <= j < i ==> self.block_positions@[j].0 != id,
    {
        let mut i: usize = 0;
        assert(self.block_positions@.subrange(0, self.block_positions@.len() as int)
            =~= self.block_positions@);
        while i < self.block_positions.len()
            invariant
                i <= self.block_positions@.len(),
                forall|j: int| 0 <= j < i ==> self.block_positions@[j].0 != id,
                lookup(self.block_positions@, id) == lookup(
                    self.block_positions@.subrange(i as int, self.block_positions@.len() as int),
                    id,
                ),
            decreases self.block_positions@.len() - i,
        {
            let ghost rest = self.block_positions@.subrange(
                i as int,
                self.block_positions@.len() as int,
            );
            if self.block_positions[i].0 == id {
                return Some(i);
            }
            assert(rest.drop_first() =~= self.block_positions@.subrange(
                i + 1,
                self.block_positions@.len() as int,
            ));
            i = i + 1;
        }
        None
    }

    /// Writes a block and records its position under `block_id`, replacing
    /// any position recorded for that identifier before.
    pub fn write_block_with_id(&mut self, block_bytes: &[u8], block_id: BlockId) -> (r: Result<u64>)
        requires
            old(self).wf(),
            old(self).bytes().len() + align_pad(old(self).bytes().len() as int) + block_bytes@.len()
                >= old(self).bytes().len() + align_pad(old(self).bytes().len() as int) + block_span(
                block_id,
            ),
        ensures
            final(self).group_names_map() == old(self).group_names_map(),
            final(self).channel_units_map() == old(self).channel_units_map(),
            final(self).wf(),
            r matches Ok(p) && p == old(self).bytes().len() + align_pad(
                old(self).bytes().len() as int,
            ) && final(self).table() == record_position(old(self).table(), block_id, p),
            final(self).bytes() == old(self).bytes() + zeros(
                align_pad(old(self).bytes().len() as int) as nat,
            ) + block_bytes@,
            r matches Ok(p) ==> p % 8 == 0,
            final(self).same_layout(*old(self)),
            block_id != BlockId::Identification ==> final(self).keeps_start(old(self)),
    {
        let block_start = match self.write_block(block_bytes) {
            Ok(p) => p,
            Err(e) => {
                return Err(e);
            },
        };
        let ghost mid = *self;
        match self.find_block(block_id) {
            Some(i) => {
                self.block_positions.set(i, (block_id, block_start));
                proof {
                    lemma_record_index(mid.block_positions@, block_id, block_start, i as int);
                }
            },
            None => {
                self.block_positions.push((block_id, block_start));
                proof {
                    lemma_record_absent(mid.block_positions@, block_id, block_start);
                }
            },
        }
        proof {
            let t = self.block_positions@;
            assert forall|k: int| 0 <= k < t.len() implies #[trigger] t[k].1 + block_span(t[k].0)
                <= self.buf@.len() by {
                if t[k].0 == block_id && t[k].1 == block_start {
                } else {
                    assert(0 <= k < mid.block_positions@.len());
                    assert(t[k] == mid.block_positions@[k]);
                }
            }
            assert forall|k: int| 0 <= k < self.groups@.len() implies self.group_wf(
                #[trigger] self.groups@[k],
            ) by {
                let g = self.groups@[k];
                assert(mid.group_wf(g));
                lemma_record_lookup(mid.block_positions@, block_id, block_start, g.cg);
                lemma_record_lookup(mid.block_positions@, block_id, block_start, g.dg);
            }
            if let Some(d) = self.last_dg {
                lemma_record_lookup(mid.block_positions@, block_id, block_start, d);
            }
            if block_id != BlockId::Identification && old(self).id_at_start() {
                old(self).lemma_start_len();
                lemma_record_lookup(mid.block_positions@, block_id, block_start, BlockId::Identification);
                lemma_record_entries(mid.block_positions@, block_id, block_start);
                assert(self.bytes().subrange(0, 64) =~= old(self).bytes().subrange(0, 64));
            }
        }
        Ok(block_start)
    }
}

/// A recorded position comes from an entry of the table.
pub proof fn lemma_lookup_entry(t: Seq<(BlockId, u64)>, x: BlockId)
    requires
        lookup(t, x) is Some,
    ensures
        exists|i: int| 0 <= i < t.len() && #[trigger] t[i] == (x, lookup(t, x)->0),
    decreases t.len(),
{
    if t[0].0 == x {
        assert(t[0] == (x, lookup(t, x)->0));
    } else {
        lemma_lookup_entry(t.drop_first(), x);
        let i = choose|i: int| 0 <= i < t.drop_first().len() && #[trigger] t.drop_first()[i] == (x, lookup(t.drop_first(), x)->0);
        assert(t[i + 1] == (x, lookup(t, x)->0));
    }
}

impl MdfWriter {
    /// In a consistent writer, fields before the span of a recorded block
    /// can be patched.
    pub proof fn lemma_linkable_patchable(&self, id: BlockId, off: u64, width: int)
        requires
            self.wf(),
            self.linkable(id, off + width),
            width >= 0,
        ensures
            self.patchable(id, off, width),
    {
        lemma_lookup_entry(self.block_positions@, id);
        let i = choose|i: int| 0 <= i < self.block_positions@.len() && #[trigger] self.block_positions@[i] == (id, lookup(self.block_positions@, id)->0);
        assert(self.block_positions@[i].1 + block_span(self.block_positions@[i].0) <= self.buf@.len());
    }
}

/// Reading back a `u64` written into an image gives the value written.
pub proof fn lemma_splice_u64_at(b: Seq<u8>, off: int, x: u64)
    requires
        0 <= off,
        off + 8 <= b.len(),
    ensures
        crate::blocks::common::u64_at(splice(b, off, spec_u64_to_le_bytes(x)), off) == x,
        splice(b, off, spec_u64_to_le_bytes(x)).len() == b.len(),
{
    crate::blocks::common::lemma_le_roundtrips();
    let s = splice(b, off, spec_u64_to_le_bytes(x));
    assert(s.subrange(off, off + 8) =~= spec_u64_to_le_bytes(x));
}

/// Replacing the entry at `i`, the first entry for `id`, records `p` for it.
proof fn lemma_record_index(t: Seq<(BlockId, u64)>, id: BlockId, p: u64, i: int)
    requires
        0 <= i < t.len(),
        t[i].0 == id,
        lookup(t, id) == Some(t[i].1),
        forall|j: int| 0 <= j < i ==> t[j].0 != id,
    ensures
        record_position(t, id, p) == t.update(i, (id, p)),
    decreases t.len(),
{
    if i == 0 {
    } else {
        assert(t[0].0 != id);
        lemma_record_index(t.drop_first(), id, p, i - 1);
        assert(seq![t[0]] + t.drop_first().update(i - 1, (id, p)) =~= t.update(i, (id, p)));
    }
}

/// Recording an identifier that has no entry appends it.
proof fn lemma_record_absent(t: Seq<(BlockId, u64)>, id: BlockId, p: u64)
    requires
        lookup(t, id) is None,
    ensures
        record_position(t, id, p) == t.push((id, p)),
    decreases t.len(),
{
    if t.len() > 0 {
        lemma_record_absent(t.drop_first(), id, p);
        assert(seq![t[0]] + t.drop_first().push((id, p)) =~= t.push((id, p)));
    }
}

} // verus!

verus! {

impl MdfWriter {
    /// The position recorded for a block.
    pub fn get_block_position(&self, block_id: BlockId) -> (r: Option<u64>)
        ensures
            r == self.position_of(block_id),
    {
        match self.find_block(block_id) {
            Some(i) => Some(self.block_positions[i].1),
            None => None,
        }
    }

    /// Overwrites the bytes at `offset` with `value`; fails with
    /// [`Error::BlockLinkError`] exactly when they would extend past the end
    /// of the image.
    fn update_bytes(&mut self, offset: u64, value: &[u8]) -> (r: Result<()>)
        requires
            old(self).wf(),
        ensures
            final(self).group_names_map() == old(self).group_names_map(),
            final(self).channel_units_map() == old(self).channel_units_map(),
            final(self).wf(),
            r is Ok <==> offset + value@.len() <= old(self).bytes().len(),
            r is Ok ==> final(self).bytes() == splice(old(self).bytes(), offset as int, value@),
            r is Err ==> final(self).bytes() == old(self).bytes(),
            r matches Err(e) ==> e is BlockLinkError,
            final(self).table() == old(self).table(),
            final(self).same_layout(*old(self)),
            offset >= 64 ==> final(self).keeps_start(old(self)),
            final(self).bytes().len() == old(self).bytes().len(),
    {
        let len = self.buf.len();
        if offset > len as u64 || (len as u64) - offset < value.len() as u64 {
            return Err(
                Error::BlockLinkError(
                    concat3("field update at offset ", crate::text::decimal_string(offset).as_str(), " lies outside the written data"),
                ),
            );
        }
        let start = offset as usize;
        let ghost before = self.buf@;
        let mut i: usize = 0;
        while i < value.len()
            invariant
                self.group_names == old(self).group_names,
                self.channel_units == old(self).channel_units,
                i <= value@.len(),
                start + value@.len() <= before.len(),
                before.len() == len,
                self.buf@.len() == before.len(),
                self.buf@ == splice(before, start as int, value@.subrange(0, i as int)),
                self.block_positions == old(self).block_positions,
                self.groups == old(self).groups,
                self.last_dg == old(self).last_dg,
                before == old(self).buf@,
            decreases value@.len() - i,
        {
            self.buf.set(start + i, value[i]);
            i = i + 1;
            assert(self.buf@ =~= splice(before, start as int, value@.subrange(0, i as int)));
        }
        assert(value@.subrange(0, i as int) =~= value@);
        proof {
            assert forall|k: int| 0 <= k < self.groups@.len() implies self.group_wf(
                #[trigger] self.groups@[k],
            ) by {
                assert(old(self).group_wf(old(self).groups@[k]));
            }
            if offset >= 64 && old(self).id_at_start() {
                assert(self.bytes().subrange(0, 64) =~= old(self).bytes().subrange(0, 64));
            }
        }
        Ok(())
    }

    /// Writes `address` as a little-endian link at `offset`; fails with
    /// [`Error::BlockLinkError`] exactly when the eight bytes would extend
    /// past the end of the image.
    pub fn update_link(&mut self, offset: u64, address: u64) -> (r: Result<()>)
        requires
            old(self).wf(),
        ensures
            final(self).group_names_map() == old(self).group_names_map(),
            final(self).channel_units_map() == old(self).channel_units_map(),
            final(self).wf(),
            r is Ok <==> offset + 8 <= old(self).bytes().len(),
            r is Ok ==> final(self).bytes() == splice(
                old(self).bytes(),
                offset as int,
                spec_u64_to_le_bytes(address),
            ),
            r is Err ==> final(self).bytes() == old(self).bytes(),
            r matches Err(e) ==> e is BlockLinkError,
            final(self).table() == old(self).table(),
            final(self).same_layout(*old(self)),
            offset >= 64 ==> final(self).keeps_start(old(self)),
            final(self).bytes().len() == old(self).bytes().len(),
    {
        proof {
            crate::blocks::common::lemma_le_roundtrips();
        }
        let v = u64_to_le_bytes(address);
        self.update_bytes(offset, v.as_slice())
    }

    /// Writes a little-endian `u32` at `offset`.
    fn update_u32(&mut self, offset: u64, value: u32) -> (r: Result<()>)
        requires
            old(self).wf(),
        ensures
            final(self).group_names_map() == old(self).group_names_map(),
            final(self).channel_units_map() == old(self).channel_units_map(),
            final(self).wf(),
            r is Ok <==> offset + 4 <= old(self).bytes().len(),
            r is Ok ==> final(self).bytes() == splice(
                old(self).bytes(),
                offset as int,
                spec_u32_to_le_bytes(value),
            ),
            r is Err ==> final(self).bytes() == old(self).bytes(),
            r matches Err(e) ==> e is BlockLinkError,
            final(self).table() == old(self).table(),
            final(self).same_layout(*old(self)),
            offset >= 64 ==> final(self).keeps_start(old(self)),
            final(self).bytes().len() == old(self).bytes().len(),
    {
        proof {
            crate::blocks::common::lemma_le_roundtrips();
        }
        let v = u32_to_le_bytes(value);
        self.update_bytes(offset, v.as_slice())
    }

    /// Writes a little-endian `u64` at `offset`.
    fn update_u64(&mut self, offset: u64, value: u64) -> (r: Result<()>)
        requires
            old(self).wf(),
        ensures
            final(self).group_names_map() == old(self).group_names_map(),
            final(self).channel_units_map() == old(self).channel_units_map(),
            final(self).wf(),
            r is Ok <==> offset + 8 <= old(self).bytes().len(),
            r is Ok ==> final(self).bytes() == splice(
                old(self).bytes(),
                offset as int,
                spec_u64_to_le_bytes(value),
            ),
            r is Err ==> final(self).bytes() == old(self).bytes(),
            r matches Err(e) ==> e is BlockLinkError,
            final(self).table() == old(self).table(),
            final(self).same_layout(*old(self)),
            offset >= 64 ==> final(self).keeps_start(old(self)),
            final(self).bytes().len() == old(self).bytes().len(),
    {
        self.update_link(offset, value)
    }

    /// Writes one byte at `offset`.
    fn update_u8(&mut self, offset: u64, value: u8) -> (r: Result<()>)
        requires
            old(self).wf(),
        ensures
            final(self).group_names_map() == old(self).group_names_map(),
            final(self).channel_units_map() == old(self).channel_units_map(),
            final(self).wf(),
            r is Ok <==> offset + 1 <= old(self).bytes().len(),
            r is Ok ==> final(self).bytes() == splice(old(self).bytes(), offset as int, seq![value]),
            r is Err ==> final(self).bytes() == old(self).bytes(),
            r matches Err(e) ==> e is BlockLinkError,
            final(self).table() == old(self).table(),
            final(self).same_layout(*old(self)),
            offset >= 64 ==> final(self).keeps_start(old(self)),
            final(self).bytes().len() == old(self).bytes().len(),
    {
        let v = [value];
        proof {
            assert(v@ =~= seq![value]);
        }
        self.update_bytes(offset, v.as_slice())
    }

    /// Whether block `id` is recorded and, by its kind, spans at least `end`
    /// bytes, so that fields before `end` can be patched.
    pub open spec fn linkable(&self, id: BlockId, end: int) -> bool {
        self.position_of(id) is Some && block_span(id) >= end
    }

    /// Whether a field of `width` bytes at `field_offset` within block `id`
    /// can be patched: the block is recorded and the field lies within the
    /// image.
    pub open spec fn patchable(&self, id: BlockId, field_offset: u64, width: int) -> bool {
        &&& self.position_of(id) is Some
        &&& self.position_of(id)->0 + field_offset + width <= self.bytes().len()
    }

    /// Writes `target`'s position as a link at `link_offset` within block
    /// `source_id`. Fails with [`Error::BlockLinkError`] exactly when either
    /// block is not recorded or the link would extend past the image.
    pub fn update_block_link(&mut self, source_id: BlockId, link_offset: u64, target_id: BlockId) -> (r: Result<()>)
        requires
            old(self).wf(),
        ensures
            final(self).group_names_map() == old(self).group_names_map(),
            final(self).channel_units_map() == old(self).channel_units_map(),
            final(self).wf(),
            r is Ok <==> old(self).patchable(source_id, link_offset, 8) && old(self).position_of(
                target_id,
            ) is Some,
            r is Ok ==> final(self).bytes() == splice(
                old(self).bytes(),
                old(self).position_of(source_id)->0 + link_offset,
                spec_u64_to_le_bytes(old(self).position_of(target_id)->0),
            ),
            r is Err ==> final(self).bytes() == old(self).bytes(),
            r matches Err(e) ==> e is BlockLinkError,
            final(self).table() == old(self).table(),
            final(self).same_layout(*old(self)),
            source_id != BlockId::Identification ==> final(self).keeps_start(old(self)),
            final(self).bytes().len() == old(self).bytes().len(),
    {
        let source_pos = match self.get_block_position(source_id) {
            Some(p) => p,
            None => {
                return Err(Error::BlockLinkError(crate::text::concat_str("Source block not found", "")));
            },
        };
        let target_pos = match self.get_block_position(target_id) {
            Some(p) => p,
            None => {
                return Err(Error::BlockLinkError(crate::text::concat_str("Target block not found", "")));
            },
        };
        let image_len = self.buf.len();
        if source_pos > u64::MAX - link_offset {
            return Err(Error::BlockLinkError(crate::text::concat_str("Link position overflows", "")));
        }
        proof {
            if source_id != BlockId::Identification && self.id_at_start() {
                self.lemma_start_pos(source_id);
            }
        }
        self.update_link(source_pos + link_offset, target_pos)
    }

    /// Writes a `u32` field of a recorded block.
    pub fn update_block_u32(&mut self, block_id: BlockId, field_offset: u64, value: u32) -> (r: Result<()>)
        requires
            old(self).wf(),
        ensures
            final(self).group_names_map() == old(self).group_names_map(),
            final(self).channel_units_map() == old(self).channel_units_map(),
            final(self).wf(),
            r is Ok <==> old(self).patchable(block_id, field_offset, 4),
            r is Ok ==> final(self).bytes() == splice(
                old(self).bytes(),
                old(self).position_of(block_id)->0 + field_offset,
                spec_u32_to_le_bytes(value),
            ),
            r is Err ==> final(self).bytes() == old(self).bytes(),
            r matches Err(e) ==> e is BlockLinkError,
            final(self).table() == old(self).table(),
            final(self).same_layout(*old(self)),
            block_id != BlockId::Identification ==> final(self).keeps_start(old(self)),
            final(self).bytes().len() == old(self).bytes().len(),
    {
        let pos = match self.get_block_position(block_id) {
            Some(p) => p,
            None => {
                return Err(Error::BlockLinkError(crate::text::concat_str("Block not found", "")));
            },
        };
        let image_len = self.buf.len();
        if pos > u64::MAX - field_offset {
            return Err(Error::BlockLinkError(crate::text::concat_str("Field position overflows", "")));
        }
        proof {
            if block_id != BlockId::Identification && self.id_at_start() {
                self.lemma_start_pos(block_id);
            }
        }
        self.update_u32(pos + field_offset, value)
    }

    /// Writes a `u64` field of a recorded block.
    pub fn update_block_u64(&mut self, block_id: BlockId, field_offset: u64, value: u64) -> (r: Result<()>)
        requires
            old(self).wf(),
        ensures
            final(self).group_names_map() == old(self).group_names_map(),
            final(self).channel_units_map() == old(self).channel_units_map(),
            final(self).wf(),
            r is Ok <==> old(self).patchable(block_id, field_offset, 8),
            r is Ok ==> final(self).bytes() == splice(
                old(self).bytes(),
                old(self).position_of(block_id)->0 + field_offset,
                spec_u64_to_le_bytes(value),
            ),
            r is Err ==> final(self).bytes() == old(self).bytes(),
            r matches Err(e) ==> e is BlockLinkError,
            final(self).table() == old(self).table(),
            final(self).same_layout(*old(self)),
            block_id != BlockId::Identification ==> final(self).keeps_start(old(self)),
            final(self).bytes().len() == old(self).bytes().len(),
    {
        let pos = match self.get_block_position(block_id) {
            Some(p) => p,
            None => {
                return Err(Error::BlockLinkError(crate::text::concat_str("Block not found", "")));
            },
        };
        let image_len = self.buf.len();
        if pos > u64::MAX - field_offset {
            return Err(Error::BlockLinkError(crate::text::concat_str("Field position overflows", "")));
        }
        proof {
            if block_id != BlockId::Identification && self.id_at_start() {
                self.lemma_start_pos(block_id);
            }
        }
        self.update_u64(pos + field_offset, value)
    }

    /// Writes a byte field of a recorded block.
    pub fn update_block_u8(&mut self, block_id: BlockId, field_offset: u64, value: u8) -> (r: Result<()>)
        requires
            old(self).wf(),
        ensures
            final(self).group_names_map() == old(self).group_names_map(),
            final(self).channel_units_map() == old(self).channel_units_map(),
            final(self).wf(),
            r is Ok <==> old(self).patchable(block_id, field_offset, 1),
            r is Ok ==> final(self).bytes() == splice(
                old(self).bytes(),
                old(self).position_of(block_id)->0 + field_offset,
                seq![value],
            ),
            r is Err ==> final(self).bytes() == old(self).bytes(),
            r matches Err(e) ==> e is BlockLinkError,
            final(self).table() == old(self).table(),
            final(self).same_layout(*old(self)),
            block_id != BlockId::Identification ==> final(self).keeps_start(old(self)),
            final(self).bytes().len() == old(self).bytes().len(),
    {
        let pos = match self.get_block_position(block_id) {
            Some(p) => p,
            None => {
                return Err(Error::BlockLinkError(crate::text::concat_str("Block not found", "")));
            },
        };
        let image_len = self.buf.len();
        if pos > u64::MAX - field_offset {
            return Err(Error::BlockLinkError(crate::text::concat_str("Field position overflows", "")));
        }
        proof {
            if block_id != BlockId::Identification && self.id_at_start() {
                self.lemma_start_pos(block_id);
            }
        }
        self.update_u8(pos + field_offset, value)
    }

    /// The current length of the image, where the next block would start
    /// before alignment.
    pub fn offset(&self) -> (r: u64)
        ensures
            r == self.bytes().len(),
    {
        self.buf.len() as u64
    }

    /// Finishes writing and returns the file image.
    pub fn finalize(self) -> (r: Result<Vec<u8>>)
        ensures
            r matches Ok(b) && b@ == self.bytes(),
    {
        Ok(self.buf)
    }
}

} // verus!

verus! {

/// Recording a position never loses another identifier's entry.
pub proof fn lemma_table_grows(t: Seq<(BlockId, u64)>, id: BlockId, p: u64)
    ensures
        forall|x: BlockId| lookup(t, x) is Some ==> #[trigger] lookup(record_position(t, id, p), x) is Some,
        lookup(record_position(t, id, p), id) == Some(p),
{
    assert forall|x: BlockId| lookup(t, x) is Some implies #[trigger] lookup(record_position(t, id, p), x) is Some by {
        lemma_record_lookup(t, id, p, x);
    }
    lemma_record_lookup(t, id, p, id);
}

impl MdfWriter {
    /// Whether block `id` is recorded and, by its kind, spans at least `end`
    /// bytes, so that fields before `end` can be patched.
    /// Whether a channel group with record layout was created as `cg`.
    pub closed spec fn has_group(&self, cg: BlockId) -> bool {
        exists|i: int| 0 <= i < self.groups@.len() && #[trigger] self.groups@[i].cg == cg
    }

    /// Whether a data block is open for the group `cg`.
    pub closed spec fn is_open(&self, cg: BlockId) -> bool {
        exists|i: int|
            0 <= i < self.groups@.len() && #[trigger] self.groups@[i].cg == cg
                && self.groups@[i].open is Some
    }

    /// Whether `self` keeps everything `o` had: every recorded block is
    /// still recorded, every group still exists, and the image only grew.
    pub open spec fn extends(&self, o: &Self) -> bool {
        &&& forall|id: BlockId| o.position_of(id) is Some ==> #[trigger] self.position_of(id) is Some
        &&& forall|cg: BlockId| o.has_group(cg) ==> #[trigger] self.has_group(cg)
        &&& self.bytes().len() >= o.bytes().len()
    }

    /// Counts the recorded blocks of kind `k`.
    fn count_kind(&self, k: u8) -> (r: usize)
        ensures
            r == kind_count(self.table(), k as int),
    {
        let mut n: usize = 0;
        let mut i: usize = 0;
        while i < self.block_positions.len()
            invariant
                i <= self.block_positions@.len(),
                n <= i,
                n == kind_count(self.block_positions@.subrange(0, i as int), k as int),
            decreases self.block_positions@.len() - i,
        {
            assert(self.block_positions@.subrange(0, i + 1).drop_last() =~= self.block_positions@.subrange(0, i as int));
            if kind_code(&self.block_positions[i].0) == k {
                n = n + 1;
            }
            i = i + 1;
        }
        assert(self.block_positions@.subrange(0, i as int) =~= self.block_positions@);
        n
    }

    /// Frame facts for any change that keeps the groups.
    proof fn lemma_same_groups(&self, o: &Self)
        requires
            self.groups@ == o.groups@,
        ensures
            forall|cg: BlockId| o.has_group(cg) ==> #[trigger] self.has_group(cg),
            forall|x: BlockId| #[trigger] self.is_open(x) == o.is_open(x),
            forall|x: BlockId| #[trigger] self.group_channel_names(x) == o.group_channel_names(x),
    {
        assert forall|cg: BlockId| o.has_group(cg) implies #[trigger] self.has_group(cg) by {
            let i = choose|i: int| 0 <= i < o.groups@.len() && #[trigger] o.groups@[i].cg == cg;
            assert(self.groups@[i].cg == cg);
        }
    }

    /// The index of the group created as `cg`, if any.
    fn find_group(&self, cg: BlockId) -> (r: Option<usize>)
        ensures
            r matches Some(i) ==> i < self.groups@.len() && self.groups@[i as int].cg == cg,
            r is None ==> !self.has_group(cg),
    {
        let mut i: usize = 0;
        while i < self.groups.len()
            invariant
                i <= self.groups@.len(),
                forall|j: int| 0 <= j < i ==> self.groups@[j].cg != cg,
            decreases self.groups@.len() - i,
        {
            if self.groups[i].cg == cg {
                return Some(i);
            }
            i = i + 1;
        }
        None
    }

    /// The index of the group created as `cg`.
    closed spec fn group_index(&self, cg: BlockId) -> int {
        choose|i: int| 0 <= i < self.groups@.len() && #[trigger] self.groups@[i].cg == cg
    }

    /// The record layout of group `cg`: its channels in the order they
    /// were added.
    pub closed spec fn group_layout(&self, cg: BlockId) -> Seq<ChannelLayout> {
        self.groups@[self.group_index(cg)].channels@
    }

    /// The names given to channel groups, by group.
    pub closed spec fn group_names_map(&self) -> Map<BlockId, Seq<char>> {
        self.group_names@
    }

    /// The units given to channels, by channel.
    pub closed spec fn channel_units_map(&self) -> Map<BlockId, Seq<char>> {
        self.channel_units@
    }

    /// The unit given to channel `cn`, if one was.
    pub open spec fn channel_unit(&self, cn: BlockId) -> Option<Seq<char>> {
        if self.channel_units_map().dom().contains(cn) {
            Some(self.channel_units_map()[cn])
        } else {
            None
        }
    }

    /// The name given to channel group `cg`, if one was.
    pub open spec fn group_name(&self, cg: BlockId) -> Option<Seq<char>> {
        if self.group_names_map().dom().contains(cg) {
            Some(self.group_names_map()[cg])
        } else {
            None
        }
    }

    /// The names of the channels added to group `cg`, in order (`None`
    /// for a channel without a name).
    pub closed spec fn group_channel_names(&self, cg: BlockId) -> Seq<Option<Seq<char>>> {
        self.groups@[self.group_index(cg)].names@
    }

    /// The number of record bytes the channels of group `cg` occupy.
    pub closed spec fn group_record_bytes(&self, cg: BlockId) -> u64 {
        self.groups@[self.group_index(cg)].record_bytes
    }

    proof fn lemma_group_index(&self, i: int)
        requires
            self.unique_groups(),
            0 <= i < self.groups@.len(),
        ensures
            self.group_index(self.groups@[i].cg) == i,
            self.has_group(self.groups@[i].cg),
    {
        let cg = self.groups@[i].cg;
        assert(self.groups@[i].cg == cg);
        let j = self.group_index(cg);
        if j != i {
            if j < i {
                assert(self.groups@[j].cg != self.groups@[i].cg);
            } else {
                assert(self.groups@[i].cg != self.groups@[j].cg);
            }
        }
    }

    /// Frame facts for a write that records one more position.
    proof fn lemma_recorded(&self, o: &Self, id: BlockId, p: u64)
        requires
            self.table() == record_position(o.table(), id, p),
            self.groups@ == o.groups@,
            self.bytes().len() >= o.bytes().len(),
        ensures
            self.extends(o),
            forall|x: BlockId| #[trigger] self.is_open(x) == o.is_open(x),
            self.position_of(id) == Some(p),
    {
        lemma_table_grows(o.table(), id, p);
        self.lemma_same_groups(o);
    }

    /// Frame facts for a change that keeps each group's identity and data
    /// block state.
    proof fn lemma_groups_like(&self, o: &Self)
        requires
            o.wf(),
            self.buf@ == o.buf@,
            self.block_positions@ == o.block_positions@,
            self.last_dg == o.last_dg,
            self.groups@.len() == o.groups@.len(),
            forall|i: int|
                0 <= i < self.groups@.len() ==> (#[trigger] self.groups@[i]).cg == o.groups@[i].cg
                    && self.groups@[i].dg == o.groups@[i].dg && self.groups@[i].open
                    == o.groups@[i].open,
        ensures
            self.wf(),
            self.extends(o),
            forall|x: BlockId| #[trigger] self.is_open(x) == o.is_open(x),
    {
        assert forall|i: int| 0 <= i < self.groups@.len() implies self.group_wf(#[trigger] self.groups@[i]) by {
            assert(o.group_wf(o.groups@[i]));
        }
        assert forall|i: int, j: int| 0 <= i < j < self.groups@.len() implies #[trigger] self.groups@[i].cg != #[trigger] self.groups@[j].cg by {
            assert(o.groups@[i].cg != o.groups@[j].cg);
        }
        assert forall|cg: BlockId| o.has_group(cg) implies #[trigger] self.has_group(cg) by {
            let i = choose|i: int| 0 <= i < o.groups@.len() && #[trigger] o.groups@[i].cg == cg;
            assert(self.groups@[i].cg == cg);
        }
        assert forall|x: BlockId| #[trigger] self.is_open(x) == o.is_open(x) by {
            if self.is_open(x) {
                let i = choose|i: int| 0 <= i < self.groups@.len() && #[trigger] self.groups@[i].cg == x && self.groups@[i].open is Some;
                assert(o.groups@[i].cg == x);
            }
            if o.is_open(x) {
                let i = choose|i: int| 0 <= i < o.groups@.len() && #[trigger] o.groups@[i].cg == x && o.groups@[i].open is Some;
                assert(self.groups@[i].cg == x);
            }
        }
    }

    /// `self` keeps everything `o` had, with the same data blocks open and
    /// the layout of every group but `cg` unchanged.
    closed spec fn kept_from(&self, o: &Self, cg: BlockId) -> bool {
        &&& self.wf()
        &&& self.extends(o)
        &&& forall|x: BlockId| #[trigger] self.is_open(x) == o.is_open(x)
        &&& self.keeps_other_groups(o, cg)
    }

    /// Every group other than `cg` that `o` had keeps its record layout
    /// and its open data block.
    pub open spec fn keeps_other_groups(&self, o: &Self, cg: BlockId) -> bool {
        forall|c: BlockId|
            c != cg && o.has_group(c) ==> #[trigger] self.group_layout(c) == o.group_layout(c)
                && self.group_record_bytes(c) == o.group_record_bytes(c) && self.open_block(c)
                == o.open_block(c) && self.group_data_group(c) == o.group_data_group(c)
                && self.group_channel_names(c) == o.group_channel_names(c)
    }

    proof fn lemma_kept_others(&self, o: &Self, cg: BlockId)
        requires
            self.kept_from(o, cg),
        ensures
            self.keeps_other_groups(o, cg),
    {
    }

    /// `keeps_other_groups` is transitive over states that keep groups.
    pub proof fn lemma_keeps_trans(&self, mid: &Self, o: &Self, cg: BlockId)
        requires
            self.keeps_other_groups(mid, cg),
            mid.keeps_other_groups(o, cg),
            mid.extends(o),
        ensures
            self.keeps_other_groups(o, cg),
    {
        assert forall|c: BlockId| c != cg && o.has_group(c) implies #[trigger] self.group_layout(c) == o.group_layout(c)
            && self.group_record_bytes(c) == o.group_record_bytes(c) && self.open_block(c)
            == o.open_block(c) && self.group_data_group(c) == o.group_data_group(c) by {
            assert(mid.has_group(c));
            assert(mid.group_layout(c) == o.group_layout(c));
            assert(self.group_layout(c) == mid.group_layout(c));
        }
    }

    proof fn lemma_kept_trans(&self, mid: &Self, o: &Self, cg: BlockId)
        requires
            self.kept_from(mid, cg),
            mid.kept_from(o, cg),
        ensures
            self.kept_from(o, cg),
    {
        self.lemma_keeps_trans(mid, o, cg);
        assert forall|x: BlockId| #[trigger] self.is_open(x) == o.is_open(x) by {
            assert(self.is_open(x) == mid.is_open(x));
            assert(mid.is_open(x) == o.is_open(x));
        }
        assert forall|id: BlockId| o.position_of(id) is Some implies #[trigger] self.position_of(id) is Some by {
            assert(mid.position_of(id) is Some);
        }
        assert forall|c: BlockId| o.has_group(c) implies #[trigger] self.has_group(c) by {
            assert(mid.has_group(c));
        }
    }

    proof fn lemma_kept_same_groups(&self, o: &Self, cg: BlockId)
        requires
            self.wf(),
            self.groups@ == o.groups@,
            forall|id: BlockId| o.position_of(id) is Some ==> #[trigger] self.position_of(id) is Some,
            self.bytes().len() >= o.bytes().len(),
        ensures
            self.kept_from(o, cg),
    {
        self.lemma_same_groups(o);
    }

    /// `extends` is transitive.
    pub proof fn lemma_extends_trans(&self, mid: &Self, o: &Self)
        requires
            self.extends(mid),
            mid.extends(o),
        ensures
            self.extends(o),
    {
    }

    /// A change to group `i` alone leaves the layout of every other group.
    proof fn lemma_other_group(&self, o: &Self, i: int, c: BlockId)
        requires
            o.unique_groups(),
            self.unique_groups(),
            0 <= i < o.groups@.len(),
            self.groups@.len() == o.groups@.len(),
            forall|j: int| 0 <= j < o.groups@.len() && j != i ==> #[trigger] self.groups@[j] == o.groups@[j],
            self.groups@[i].cg == o.groups@[i].cg,
            c != o.groups@[i].cg,
            o.has_group(c),
        ensures
            self.group_layout(c) == o.group_layout(c),
            self.group_record_bytes(c) == o.group_record_bytes(c),
            self.open_block(c) == o.open_block(c),
            self.group_data_group(c) == o.group_data_group(c),
            self.group_channel_names(c) == o.group_channel_names(c),
    {
        let j = choose|j: int| 0 <= j < o.groups@.len() && #[trigger] o.groups@[j].cg == c;
        assert(j != i);
        assert(self.groups@[j] == o.groups@[j]);
        o.lemma_group_index(j);
        self.lemma_group_index(j);
    }

    /// A change to group `i` alone leaves every other group as it was.
    proof fn lemma_other_groups(&self, o: &Self, i: int)
        requires
            o.unique_groups(),
            self.unique_groups(),
            0 <= i < o.groups@.len(),
            self.groups@.len() == o.groups@.len(),
            forall|j: int| 0 <= j < o.groups@.len() && j != i ==> #[trigger] self.groups@[j] == o.groups@[j],
            self.groups@[i].cg == o.groups@[i].cg,
        ensures
            self.keeps_other_groups(o, o.groups@[i].cg),
    {
        assert forall|c: BlockId| c != o.groups@[i].cg && o.has_group(c) implies #[trigger] self.group_layout(c)
            == o.group_layout(c) && self.group_record_bytes(c) == o.group_record_bytes(c)
            && self.open_block(c) == o.open_block(c) && self.group_data_group(c)
            == o.group_data_group(c) && self.group_channel_names(c) == o.group_channel_names(c) by {
            self.lemma_other_group(o, i, c);
        }
    }

    /// A change that keeps the layout keeps every group as it was.
    pub proof fn lemma_same_layout(&self, o: &Self)
        requires
            self.same_layout(*o),
        ensures
            forall|cg: BlockId| #[trigger] self.has_group(cg) == o.has_group(cg),
            forall|cg: BlockId| self.keeps_other_groups(o, cg),
            forall|cg: BlockId| #[trigger] self.open_block(cg) == o.open_block(cg),
            forall|cg: BlockId| #[trigger] self.group_layout(cg) == o.group_layout(cg),
            forall|cg: BlockId| #[trigger] self.group_record_bytes(cg) == o.group_record_bytes(cg),
            forall|cg: BlockId| #[trigger] self.is_open(cg) == o.is_open(cg),
            forall|cg: BlockId| #[trigger] self.group_channel_names(cg) == o.group_channel_names(cg),
    {
    }

    /// A data block is open only for a group of the writer.
    pub proof fn lemma_open_group(&self, cg: BlockId)
        ensures
            self.is_open(cg) ==> self.has_group(cg),
    {
    }

    /// A data block is open for a group exactly when the group has one.
    /// The channel group block and the data group block of a group are
    /// recorded and lie within the image; an open data block's header does
    /// too.
    pub proof fn lemma_group_blocks(&self, cg: BlockId)
        requires
            self.wf(),
            self.has_group(cg),
        ensures
            cg is ChannelGroup,
            self.group_data_group(cg) is DataGroup,
            self.position_of(cg) is Some,
            self.position_of(cg)->0 + 104 <= self.bytes().len(),
            self.position_of(self.group_data_group(cg)) is Some,
            self.position_of(self.group_data_group(cg))->0 + 64 <= self.bytes().len(),
            self.open_block(cg) matches Some(o) ==> o.pos + 24 <= self.bytes().len(),
    {
        let i = choose|i: int| 0 <= i < self.groups@.len() && #[trigger] self.groups@[i].cg == cg;
        self.lemma_group_index(i);
        let g = self.groups@[i];
        assert(self.group_wf(g));
        lemma_lookup_entry(self.table(), cg);
        let k = choose|k: int| 0 <= k < self.block_positions@.len() && #[trigger] self.block_positions@[k] == (cg, lookup(self.block_positions@, cg)->0);
        assert(self.block_positions@[k].1 + block_span(self.block_positions@[k].0) <= self.buf@.len());
        lemma_lookup_entry(self.table(), g.dg);
        let m = choose|m: int| 0 <= m < self.block_positions@.len() && #[trigger] self.block_positions@[m] == (g.dg, lookup(self.block_positions@, g.dg)->0);
        assert(self.block_positions@[m].1 + block_span(self.block_positions@[m].0) <= self.buf@.len());
    }

    /// Whether `self` keeps the channel group numbering of `o` free: if
    /// every channel group recorded in `o` is numbered below the count of
    /// channel groups, so is every one recorded in `self`.
    pub open spec fn cg_kept(&self, o: &Self) -> bool {
        cg_ids_below(o.table()) ==> cg_ids_below(self.table())
    }

    /// A recorded block lies within the image.
    pub proof fn lemma_block_within(&self, id: BlockId)
        requires
            self.wf(),
            self.position_of(id) is Some,
        ensures
            self.position_of(id)->0 + block_span(id) <= self.bytes().len(),
    {
        lemma_lookup_entry(self.table(), id);
        let k = choose|k: int| 0 <= k < self.block_positions@.len() && #[trigger] self.block_positions@[k] == (id, lookup(self.block_positions@, id)->0);
        assert(self.block_positions@[k].1 + block_span(self.block_positions@[k].0) <= self.buf@.len());
    }

    pub proof fn lemma_open_block(&self, cg: BlockId)
        requires
            self.wf(),
        ensures
            self.is_open(cg) == (self.open_block(cg) is Some),
    {
        if self.is_open(cg) {
            let i = choose|i: int| 0 <= i < self.groups@.len() && #[trigger] self.groups@[i].cg == cg && self.groups@[i].open is Some;
            self.lemma_group_index(i);
        }
        if self.open_block(cg) is Some {
            let i = self.group_index(cg);
            assert(self.groups@[i].cg == cg);
        }
    }

    /// The data group that the next channel group is added after.
    pub closed spec fn last_dg_id(&self) -> Option<BlockId> {
        self.last_dg
    }

    /// The data block being filled for group `cg`, if any.
    pub closed spec fn open_block(&self, cg: BlockId) -> Option<OpenDataBlock> {
        if self.has_group(cg) {
            self.groups@[self.group_index(cg)].open
        } else {
            None
        }
    }

    /// The data group that holds group `cg`.
    pub closed spec fn group_data_group(&self, cg: BlockId) -> BlockId {
        self.groups@[self.group_index(cg)].dg
    }
}

} // verus!

verus! {

/// Every entry of a table after recording `p` for `id` is that entry or
/// one of the table before.
pub proof fn lemma_record_entries(t: Seq<(BlockId, u64)>, id: BlockId, p: u64)
    ensures
        forall|k: int|
            0 <= k < record_position(t, id, p).len() ==> #[trigger] record_position(t, id, p)[k] == (id, p)
                || exists|j: int| 0 <= j < t.len() && t[j] == record_position(t, id, p)[k],
    decreases t.len(),
{
    let r = record_position(t, id, p);
    if t.len() == 0 {
    } else if t[0].0 == id {
        assert forall|k: int| 0 <= k < r.len() implies #[trigger] r[k] == (id, p)
            || exists|j: int| 0 <= j < t.len() && t[j] == r[k] by {
            if k != 0 {
                assert(t[k] == r[k]);
            }
        }
    } else {
        lemma_record_entries(t.drop_first(), id, p);
        let r2 = record_position(t.drop_first(), id, p);
        assert forall|k: int| 0 <= k < r.len() implies #[trigger] r[k] == (id, p)
            || exists|j: int| 0 <= j < t.len() && t[j] == r[k] by {
            if k == 0 {
                assert(t[0] == r[0]);
            } else {
                assert(r[k] == r2[k - 1]);
                if r2[k - 1] != (id, p) {
                    let j = choose|j: int| 0 <= j < t.drop_first().len() && t.drop_first()[j] == r2[k - 1];
                    assert(t[j + 1] == r[k]);
                }
            }
        }
    }
}

impl MdfWriter {
    /// The identification block is recorded at the start of the image and
    /// every other recorded block lies after its 64 bytes.
    pub closed spec fn id_at_start(&self) -> bool {
        &&& self.buf@.len() >= 64
        &&& lookup(self.block_positions@, BlockId::Identification) == Some(0u64)
        &&& forall|i: int|
            0 <= i < self.block_positions@.len() && (#[trigger] self.block_positions@[i]).0
                != BlockId::Identification ==> self.block_positions@[i].1 >= 64
    }

    /// When `o` had its identification block at the start, `self` still
    /// has it there, and the same first 64 bytes.
    pub open spec fn keeps_start(&self, o: &Self) -> bool {
        o.id_at_start() ==> self.id_at_start() && self.bytes().len() >= 64 && self.bytes().subrange(0, 64)
            == o.bytes().subrange(0, 64)
    }

    /// With the identification block at the start, the image holds it.
    pub proof fn lemma_start_len(&self)
        requires
            self.wf(),
            self.id_at_start(),
        ensures
            self.bytes().len() >= 64,
    {
        lemma_lookup_entry(self.block_positions@, BlockId::Identification);
        let i = choose|i: int| 0 <= i < self.block_positions@.len() && #[trigger] self.block_positions@[i] == (BlockId::Identification, 0u64);
        assert(self.block_positions@[i].1 + block_span(self.block_positions@[i].0) <= self.buf@.len());
    }

    /// With the identification block at the start, every other recorded
    /// block lies after it.
    pub proof fn lemma_start_pos(&self, id: BlockId)
        requires
            self.id_at_start(),
            id != BlockId::Identification,
        ensures
            self.position_of(id) matches Some(p) ==> p >= 64,
    {
        if self.position_of(id) is Some {
            lemma_lookup_entry(self.block_positions@, id);
            let i = choose|i: int| 0 <= i < self.block_positions@.len() && #[trigger] self.block_positions@[i] == (id, lookup(self.block_positions@, id)->0);
            assert(self.block_positions@[i].0 != BlockId::Identification);
        }
    }
}

} // verus!
