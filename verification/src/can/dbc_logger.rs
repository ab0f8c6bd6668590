//! Logging CAN frames decoded with a DBC database: the signal values of
//! each message are buffered, then written to an MDF image with one
//! channel group per message. Decoding itself happens outside: the logger
//! takes what a decoder yields for a frame. Physical values and limits are
//! held as the bit patterns of 64-bit IEEE-754 numbers.
use super::dbc_config::DbcMdfLoggerConfig;
use crate::blocks::{ConversionBlock, DataType};
use crate::writer::{cg_ids_below, kind_count, BlockId, ChannelLayout, MdfWriter, OpenDataBlock};
use crate::writer::data::{encode_record, layout_end, open_dt_header};
use crate::blocks::common::zeros;
use super::raw_logger::{groups_below_in, lemma_finished_keeps, lemma_groups_below_kept, lemma_splice_keeps};
use crate::blocks::common::data_type_default_bits;
use crate::text::{concat_str, hex_chars, hex_string, lemma_encode_utf8_len, lemma_hex_chars_len, pow16, str_eq};
use crate::error::{Error, Result};
use crate::blocks::{ChannelBlock, ChannelGroupBlock};
use crate::writer::data::DecodedValue;
use vstd::string::StrSliceExecFns;
use vstd::utf8::encode_utf8;
use vstd::prelude::*;

verus! {

/// What the logger keeps of a DBC signal.
pub struct SignalInfo {
    /// The signal's name
    pub name: String,
    /// The data type raw values are stored with
    pub data_type: DataType,
    /// The bits raw values are stored with
    pub bit_count: u32,
    /// The signal's unit, if it has one
    pub unit: Option<String>,
    /// The smallest physical value, as binary64 bits
    pub min: u64,
    /// The largest physical value, as binary64 bits
    pub max: u64,
    /// The conversion from raw to physical values, if it is not the
    /// identity
    pub conversion: Option<ConversionBlock>,
    /// Whether raw values are unsigned
    pub unsigned: bool,
    /// The texts of the signal's raw values, if the database gives any
    pub value_descriptions: Option<Vec<(i64, String)>>,
}

/// A message of a DBC database with the signals the logger keeps.
pub struct DbcMessage {
    /// The message's identifier (extended identifiers with the top bit set)
    pub id: u32,
    /// The message's name
    pub name: String,
    /// The node that sends the message
    pub sender: String,
    /// The message's signals
    pub signals: Vec<SignalInfo>,
}

/// One signal of a decoded frame.
pub struct DecodedSignal {
    /// The signal's name
    pub name: String,
    /// Its raw value
    pub raw_value: i64,
    /// Its physical value, as binary64 bits
    pub value: u64,
}

/// The identifier a database gives a frame: extended identifiers carry
/// the top bit.
pub fn dbc_message_id(can_id: u32, is_extended: bool) -> (r: u32)
    ensures
        r == if is_extended {
            can_id | 0x8000_0000
        } else {
            can_id
        },
{
    if is_extended {
        can_id | 0x8000_0000
    } else {
        can_id
    }
}

/// The first decoded signal named `name`.
pub open spec fn first_named(d: Seq<DecodedSignal>, name: Seq<char>) -> Option<DecodedSignal>
    decreases d.len(),
{
    if d.len() == 0 {
        None
    } else if d[0].name@ == name {
        Some(d[0])
    } else {
        first_named(d.drop_first(), name)
    }
}

/// The raw value decoded for `name`, zero when none is.
pub open spec fn decoded_raw(d: Seq<DecodedSignal>, name: Seq<char>) -> i64 {
    match first_named(d, name) {
        Some(s) => s.raw_value,
        None => 0,
    }
}

/// The physical value decoded for `name`, zero when none is.
pub open spec fn decoded_value(d: Seq<DecodedSignal>, name: Seq<char>) -> u64 {
    match first_named(d, name) {
        Some(s) => s.value,
        None => 0,
    }
}

/// Finds the first decoded signal named `name`.
fn find_named(d: &[DecodedSignal], name: &str) -> (r: Option<usize>)
    ensures
        match r {
            Some(k) => k < d@.len() && first_named(d@, name@) == Some(d@[k as int]),
            None => first_named(d@, name@) is None,
        },
{
    let mut i: usize = 0;
    assert(d@.subrange(0, d@.len() as int) =~= d@);
    while i < d.len()
        invariant
            i <= d@.len(),
            first_named(d@, name@) == first_named(d@.subrange(i as int, d@.len() as int), name@),
        decreases d@.len() - i,
    {
        assert(d@.subrange(i as int, d@.len() as int).drop_first() =~= d@.subrange(i + 1, d@.len() as int));
        assert(d@.subrange(i as int, d@.len() as int)[0] == d@[i as int]);
        if str_eq(d[i].name.as_str(), name) {
            return Some(i);
        }
        i = i + 1;
    }
    None
}

/// The raw values buffered per signal.
spec fn raw_columns(b: MessageBuffer) -> Seq<Seq<i64>> {
    b.raw_values@.map_values(|v: Vec<i64>| v@)
}

/// The physical values buffered per signal.
spec fn physical_columns(b: MessageBuffer) -> Seq<Seq<u64>> {
    b.physical_values@.map_values(|v: Vec<u64>| v@)
}

/// The buffered values of one message.
struct MessageBuffer {
    id: u32,
    name: String,
    sender: String,
    signals: Vec<SignalInfo>,
    timestamps: Vec<u64>,
    raw_values: Vec<Vec<i64>>,
    physical_values: Vec<Vec<u64>>,
}

impl MessageBuffer {
    spec fn cleared(&self) -> bool {
        &&& self.timestamps@.len() == 0
        &&& forall|j: int|
            0 <= j < self.signals@.len() ==> (#[trigger] self.raw_values@[j])@.len() == 0
                && self.physical_values@[j]@.len() == 0
    }

    spec fn wf(&self) -> bool {
        &&& self.raw_values@.len() == self.signals@.len()
        &&& self.physical_values@.len() == self.signals@.len()
    }

    fn new(m: DbcMessage) -> (r: Self)
        ensures
            r.wf(),
            r.id == m.id && r.name == m.name && r.sender == m.sender && r.signals == m.signals,
            r.timestamps@.len() == 0,
            forall|i: int| 0 <= i < r.signals@.len() ==> (#[trigger] r.raw_values@[i])@.len() == 0
                && r.physical_values@[i]@.len() == 0,
    {
        let n = m.signals.len();
        let mut raw: Vec<Vec<i64>> = Vec::new();
        let mut phys: Vec<Vec<u64>> = Vec::new();
        let mut i: usize = 0;
        while i < n
            invariant
                i <= n,
                raw@.len() == i && phys@.len() == i,
                forall|k: int| 0 <= k < i ==> (#[trigger] raw@[k])@.len() == 0 && phys@[k]@.len() == 0,
            decreases n - i,
        {
            raw.push(Vec::new());
            phys.push(Vec::new());
            i = i + 1;
        }
        MessageBuffer {
            id: m.id,
            name: m.name,
            sender: m.sender,
            signals: m.signals,
            timestamps: Vec::new(),
            raw_values: raw,
            physical_values: phys,
        }
    }
}

/// A CAN logger that buffers the decoded signal values of the messages of
/// a DBC database and writes them to an MDF image.
pub struct DbcMdfLogger {
    config: DbcMdfLoggerConfig,
    buffers: Vec<MessageBuffer>,
    writer: MdfWriter,
    channel_groups: Vec<(u32, BlockId)>,
    initialized: bool,
}

/// Whether the identifiers of `msgs` from `from` on include `x` with
/// signals.
pub open spec fn logged_message(msgs: Seq<DbcMessage>, from: int, x: u32) -> bool {
    exists|i: int| from <= i < msgs.len() && (#[trigger] msgs[i]).id == x && msgs[i].signals@.len() > 0
}

/// Whether `j` is the last message of `msgs` with identifier `x` and
/// signals.
pub open spec fn last_logged(msgs: Seq<DbcMessage>, x: u32, j: int) -> bool {
    &&& 0 <= j < msgs.len()
    &&& msgs[j].id == x
    &&& msgs[j].signals@.len() > 0
    &&& forall|k: int| j < k < msgs.len() && (#[trigger] msgs[k]).id == x ==> msgs[k].signals@.len() == 0
}

impl DbcMdfLogger {
    /// The identifiers of the messages logged, in ascending order.
    pub closed spec fn ids(&self) -> Seq<u32> {
        self.buffers@.map_values(|b: MessageBuffer| b.id)
    }

    /// The position of message `id` among the logged ones.
    closed spec fn slot(&self, id: u32) -> int {
        choose|i: int| 0 <= i < self.buffers@.len() && (#[trigger] self.buffers@[i]).id == id
    }

    /// The signals of message `id`.
    pub closed spec fn signals(&self, id: u32) -> Seq<SignalInfo> {
        if self.ids().contains(id) {
            self.buffers@[self.slot(id)].signals@
        } else {
            Seq::empty()
        }
    }

    /// The name of message `id`.
    pub closed spec fn message_name(&self, id: u32) -> Seq<char> {
        self.buffers@[self.slot(id)].name@
    }

    /// The name given to the channel group of message `id`, if one was.
    pub closed spec fn channel_group_name(&self, id: u32) -> Option<Seq<char>> {
        self.writer.group_name(self.channel_groups@[self.slot(id)].1)
    }

    /// The names of the channels of the channel group of message `id`, in
    /// order.
    pub closed spec fn channel_names(&self, id: u32) -> Seq<Option<Seq<char>>> {
        self.writer.group_channel_names(self.channel_groups@[self.slot(id)].1)
    }

    /// The record layout of the channel group of message `id`.
    pub closed spec fn channel_layout(&self, id: u32) -> Seq<ChannelLayout> {
        self.writer.group_layout(self.channel_groups@[self.slot(id)].1)
    }

    /// The number of channel groups written.
    pub closed spec fn group_count(&self) -> nat {
        self.channel_groups@.len()
    }

    /// Law: once the MDF structure is written, there is one channel group
    /// per logged message, and the group of each message holds, in order,
    /// its time channel `Time_0x` and the identifier in hexadecimal, then a
    /// channel per signal, named after the signal, laid out one after the
    /// other (see [`dbc_layout`]); a group is named after its message
    /// where the message has a name.
    pub proof fn lemma_group_structure(&self, id: u32)
        requires
            self.wf(),
            self.spec_initialized(),
            self.ids().contains(id),
        ensures
            self.group_count() == self.ids().len(),
            self.channel_names(id) == dbc_channel_names(id, self.signals(id)),
            self.channel_layout(id) == dbc_layout(self.signals(id), self.spec_config().store_raw_values),
            self.message_name(id).len() > 0 ==> self.channel_group_name(id) == Some(self.message_name(id)),
    {
        let j = choose|j: int| 0 <= j < self.ids().len() && self.ids()[j] == id;
        assert(self.buffers@[j].id == id);
        self.lemma_slot(j);
    }

    /// The timestamps of the frames buffered for message `id`.
    pub closed spec fn timestamps(&self, id: u32) -> Seq<u64> {
        if self.ids().contains(id) {
            self.buffers@[self.slot(id)].timestamps@
        } else {
            Seq::empty()
        }
    }

    /// The raw values buffered for signal `i` of message `id`.
    pub closed spec fn raw_values(&self, id: u32, i: int) -> Seq<i64> {
        if self.ids().contains(id) {
            self.buffers@[self.slot(id)].raw_values@[i]@
        } else {
            Seq::empty()
        }
    }

    /// The physical values buffered for signal `i` of message `id`.
    pub closed spec fn physical_values(&self, id: u32, i: int) -> Seq<u64> {
        if self.ids().contains(id) {
            self.buffers@[self.slot(id)].physical_values@[i]@
        } else {
            Seq::empty()
        }
    }

    /// The logger's configuration.
    pub closed spec fn spec_config(&self) -> DbcMdfLoggerConfig {
        self.config
    }

    /// Whether the MDF structure has been written.
    pub closed spec fn spec_initialized(&self) -> bool {
        self.initialized
    }

    /// The consistency of the buffers and of the writer.
    closed spec fn wf_core(&self) -> bool {
        &&& forall|a: int, b: int|
            0 <= a < b < self.buffers@.len() ==> (#[trigger] self.buffers@[a]).id < (#[trigger] self.buffers@[b]).id
        &&& forall|i: int| 0 <= i < self.buffers@.len() ==> (#[trigger] self.buffers@[i]).wf()
        &&& self.writer.wf()
    }

    /// Whether the channel groups `cgs` of `w` are those of the messages of
    /// `buffers`, in order, each laid out for its message's signals.
    closed spec fn groups_laid_out(&self, cgs: Seq<(u32, BlockId)>, w: MdfWriter) -> bool {
        &&& cgs.len() <= self.buffers@.len()
        &&& forall|k: int|
            0 <= k < cgs.len() ==> (#[trigger] cgs[k]).0 == self.buffers@[k].id && w.has_group(cgs[k].1)
                && w.group_layout(cgs[k].1) == dbc_layout(self.buffers@[k].signals@, self.config.store_raw_values)
                && w.group_channel_names(cgs[k].1) == dbc_channel_names(self.buffers@[k].id, self.buffers@[k].signals@)
                && (self.buffers@[k].name@.len() > 0 ==> w.group_name(cgs[k].1) == Some(self.buffers@[k].name@))
        &&& forall|a: int, b: int| 0 <= a < b < cgs.len() ==> (#[trigger] cgs[a]).1 != (#[trigger] cgs[b]).1
    }

    /// The logger's internal consistency.
    pub closed spec fn wf(&self) -> bool {
        &&& self.wf_core()
        &&& !self.initialized ==> self.writer.bytes().len() == 0 && self.writer.table().len() == 0
            && self.channel_groups@.len() == 0 && forall|cg: BlockId| !self.writer.has_group(cg)
        &&& self.initialized ==> self.groups_laid_out(self.channel_groups@, self.writer)
            && self.channel_groups@.len() == self.buffers@.len()
        &&& self.initialized ==> forall|k: int|
            0 <= k < self.channel_groups@.len() ==> self.writer.open_block(#[trigger] self.channel_groups@[k].1) is None
    }

    proof fn lemma_slot(&self, i: int)
        requires
            self.wf(),
            0 <= i < self.buffers@.len(),
        ensures
            self.slot(self.buffers@[i].id) == i,
            self.ids().contains(self.buffers@[i].id),
    {
        let id = self.buffers@[i].id;
        assert(self.ids()[i] == id);
        let j = self.slot(id);
        assert(self.buffers@[j].id == id);
        if j < i {
            assert(self.buffers@[j].id < self.buffers@[i].id);
        } else if j > i {
            assert(self.buffers@[i].id < self.buffers@[j].id);
        }
    }

    /// The records of the first `n` frames buffered at position `idx`, one
    /// after the other, as the message's record layout encodes them.
    pub closed spec fn records_up_to(&self, idx: int, n: int) -> Seq<u8>
        decreases n,
    {
        if n <= 0 {
            Seq::empty()
        } else {
            let b = self.buffers@[idx];
            let layout = dbc_layout(b.signals@, self.config.store_raw_values);
            self.records_up_to(idx, n - 1) + encode_record(
                layout,
                message_record(
                    b.timestamps@[n - 1],
                    self.config.store_raw_values,
                    b.signals@,
                    raw_columns(b),
                    physical_columns(b),
                    n - 1,
                ),
                0,
                layout_end(layout) as nat,
            )
        }
    }

    /// The records of all frames buffered at position `idx`.
    pub closed spec fn buffer_records(&self, idx: int) -> Seq<u8> {
        self.records_up_to(idx, self.buffers@[idx].timestamps@.len() as int)
    }

    /// The records of the frames buffered for message `id`: for each
    /// frame, the record the message's layout (see [`dbc_layout`]) encodes
    /// of its values (see [`message_record`]).
    pub closed spec fn message_records(&self, id: u32) -> Seq<u8> {
        if self.ids().contains(id) {
            self.buffer_records(self.slot(id))
        } else {
            Seq::empty()
        }
    }

    /// The records depend on the buffers and the configuration alone.
    proof fn lemma_records_same(&self, o: &Self, idx: int)
        requires
            self.buffers == o.buffers,
            self.config == o.config,
        ensures
            self.buffer_records(idx) == o.buffer_records(idx),
    {
        self.lemma_records_up_to_same(o, idx, self.buffers@[idx].timestamps@.len() as int);
    }

    proof fn lemma_records_up_to_same(&self, o: &Self, idx: int, n: int)
        requires
            self.buffers == o.buffers,
            self.config == o.config,
        ensures
            self.records_up_to(idx, n) == o.records_up_to(idx, n),
        decreases n,
    {
        if n > 0 {
            self.lemma_records_up_to_same(o, idx, n - 1);
        }
    }

    proof fn lemma_records_len(&self, idx: int, n: int)
        ensures
            self.records_up_to(idx, n).len() == (if n <= 0 {
                0
            } else {
                n
            }) * layout_end(dbc_layout(self.buffers@[idx].signals@, self.config.store_raw_values)),
        decreases n,
    {
        let layout = dbc_layout(self.buffers@[idx].signals@, self.config.store_raw_values);
        crate::writer::data::lemma_layout_end_bound(layout);
        if n > 0 {
            self.lemma_records_len(idx, n - 1);
            let b = self.buffers@[idx];
            lemma_encode_len(
                layout,
                message_record(
                    b.timestamps@[n - 1],
                    self.config.store_raw_values,
                    b.signals@,
                    raw_columns(b),
                    physical_columns(b),
                    n - 1,
                ),
                0,
                layout_end(layout) as nat,
            );
            let e = layout_end(layout);
            assert((if n - 1 <= 0 { 0 } else { n - 1 }) * e + e == n * e) by (nonlinear_arith)
                requires
                    n > 0,
            ;
        }
    }

    /// Creates a logger for the messages `messages` of a database: each
    /// message with signals gets a buffer, the last one where identifiers
    /// repeat.
    pub fn new(config: DbcMdfLoggerConfig, messages: Vec<DbcMessage>) -> (r: Self)
        ensures
            r.wf(),
            !r.spec_initialized(),
            r.spec_config() == config,
            forall|a: int, b: int| 0 <= a < b < r.ids().len() ==> #[trigger] r.ids()[a] < #[trigger] r.ids()[b],
            forall|x: u32| #[trigger] r.ids().contains(x) <==> logged_message(messages@, 0, x),
            forall|x: u32|
                #[trigger] r.ids().contains(x) ==> exists|j: int|
                    last_logged(messages@, x, j) && r.signals(x) == (#[trigger] messages@[j]).signals@
                        && r.message_name(x) == messages@[j].name@,
            forall|x: u32| #[trigger] r.timestamps(x).len() == 0,
    {
        Self::with_capacity(config, messages, 0)
    }

    /// Creates a logger as [`DbcMdfLogger::new`] does, whose image buffer
    /// starts with room for `capacity` bytes.
    pub fn with_capacity(config: DbcMdfLoggerConfig, messages: Vec<DbcMessage>, capacity: usize) -> (r: Self)
        ensures
            r.wf(),
            !r.spec_initialized(),
            r.spec_config() == config,
            forall|a: int, b: int| 0 <= a < b < r.ids().len() ==> #[trigger] r.ids()[a] < #[trigger] r.ids()[b],
            forall|x: u32| #[trigger] r.ids().contains(x) <==> logged_message(messages@, 0, x),
            forall|x: u32|
                #[trigger] r.ids().contains(x) ==> exists|j: int|
                    last_logged(messages@, x, j) && r.signals(x) == (#[trigger] messages@[j]).signals@
                        && r.message_name(x) == messages@[j].name@,
            forall|x: u32| #[trigger] r.timestamps(x).len() == 0,
    {
        let ghost msgs = messages@;
        let mut messages = messages;
        let mut buffers: Vec<MessageBuffer> = Vec::new();
        let mut l = DbcMdfLogger {
            config,
            buffers,
            writer: MdfWriter::with_capacity(capacity),
            channel_groups: Vec::new(),
            initialized: false,
        };
        while messages.len() > 0
            invariant
                l.wf(),
                !l.initialized,
                l.config == config,
                messages@ == msgs.subrange(0, messages@.len() as int),
                messages@.len() <= msgs.len(),
                forall|x: u32| #[trigger] l.ids().contains(x) <==> logged_message(msgs, messages@.len() as int, x),
                forall|k: int|
                    0 <= k < l.buffers@.len() ==> exists|j: int|
                        messages@.len() <= j && last_logged(msgs, (#[trigger] l.buffers@[k]).id, j)
                            && l.buffers@[k].signals@ == (#[trigger] msgs[j]).signals@ && l.buffers@[k].name@ == msgs[j].name@,
                forall|k: int| 0 <= k < l.buffers@.len() ==> (#[trigger] l.buffers@[k]).timestamps@.len() == 0,
            decreases messages@.len(),
        {
            let ghost before = l;
            let m = messages.pop().unwrap();
            let ghost j = messages@.len() as int;
            let ghost mid = m.id;
            let ghost mne = m.signals@.len() > 0;
            proof {
                assert(msgs[j] == m);
            }
            if m.signals.len() > 0 {
                let mut i: usize = 0;
                while i < l.buffers.len() && l.buffers[i].id < m.id
                    invariant
                        i <= l.buffers@.len(),
                        forall|k: int| 0 <= k < i ==> (#[trigger] l.buffers@[k]).id < m.id,
                    decreases l.buffers@.len() - i,
                {
                    i = i + 1;
                }
                if i < l.buffers.len() && l.buffers[i].id == m.id {
                    proof {
                        assert(l.ids().contains(m.id)) by {
                            assert(l.ids()[i as int] == m.id);
                        }
                        assert(forall|x: u32| #[trigger] l.ids().contains(x) <==> before.ids().contains(x) || (x == mid && mne));
                    }
                } else {
                    let id = m.id;
                    let b = MessageBuffer::new(m);
                    l.buffers.insert(i, b);
                    proof {
                        assert(l.buffers@ == before.buffers@.insert(i as int, b));
                        assert(l.ids() =~= before.ids().insert(i as int, id));
                        assert(!before.ids().contains(id)) by {
                            if before.ids().contains(id) {
                                let k = choose|k: int| 0 <= k < before.ids().len() && before.ids()[k] == id;
                                assert(before.buffers@[k].id == id);
                                if k < i {
                                } else {
                                    assert(before.buffers@[i as int].id <= before.buffers@[k].id);
                                }
                            }
                        }
                        assert forall|a: int, c: int| 0 <= a < c < l.buffers@.len() implies #[trigger] l.buffers@[a].id
                            < #[trigger] l.buffers@[c].id by {
                            if c < i {
                                assert(l.buffers@[a] == before.buffers@[a]);
                                assert(l.buffers@[c] == before.buffers@[c]);
                            } else if a < i && c == i {
                                assert(l.buffers@[a] == before.buffers@[a]);
                            } else if a < i && c > i {
                                assert(l.buffers@[a] == before.buffers@[a]);
                                assert(l.buffers@[c] == before.buffers@[c - 1]);
                            } else if a == i {
                                assert(l.buffers@[c] == before.buffers@[c - 1]);
                                if c - 1 > i {
                                    assert(before.buffers@[i as int].id < before.buffers@[c - 1].id);
                                }
                            } else {
                                assert(l.buffers@[a] == before.buffers@[a - 1]);
                                assert(l.buffers@[c] == before.buffers@[c - 1]);
                            }
                        }
                        assert forall|k: int| 0 <= k < l.buffers@.len() implies (#[trigger] l.buffers@[k]).wf() by {
                            if k < i {
                                assert(l.buffers@[k] == before.buffers@[k]);
                            } else if k > i {
                                assert(l.buffers@[k] == before.buffers@[k - 1]);
                            }
                        }
                        assert forall|x: u32| #[trigger] l.ids().contains(x) <==> before.ids().contains(x) || (x == mid && mne) by {
                            if l.ids().contains(x) && x != id {
                                let k = choose|k: int| 0 <= k < l.ids().len() && l.ids()[k] == x;
                                if k < i {
                                    assert(before.ids()[k] == x);
                                } else {
                                    assert(before.ids()[k - 1] == x);
                                }
                            }
                            if before.ids().contains(x) {
                                let k = choose|k: int| 0 <= k < before.ids().len() && before.ids()[k] == x;
                                if k < i {
                                    assert(l.ids()[k] == x);
                                } else {
                                    assert(l.ids()[k + 1] == x);
                                }
                            }
                            if x == id {
                                assert(l.ids()[i as int] == x);
                            }
                        }
                    }
                }
            } else {
                proof {
                    assert(forall|x: u32| #[trigger] l.ids().contains(x) <==> before.ids().contains(x) || (x == mid && mne));
                }
            }
            proof {
                assert(messages@ =~= msgs.subrange(0, messages@.len() as int));
                assert forall|x: u32| #[trigger] l.ids().contains(x) <==> logged_message(msgs, j, x) by {
                    if logged_message(msgs, j, x) && !logged_message(msgs, j + 1, x) {
                        assert(msgs[j].id == x);
                    }
                    if logged_message(msgs, j + 1, x) {
                        let i2 = choose|i2: int| j + 1 <= i2 < msgs.len() && (#[trigger] msgs[i2]).id == x && msgs[i2].signals@.len() > 0;
                        assert(j <= i2);
                    }
                }
                assert forall|k: int| 0 <= k < l.buffers@.len() implies exists|jj: int|
                    j <= jj && last_logged(msgs, (#[trigger] l.buffers@[k]).id, jj)
                        && l.buffers@[k].signals@ == (#[trigger] msgs[jj]).signals@ && l.buffers@[k].name@ == msgs[jj].name@ by {
                    let x = l.buffers@[k].id;
                    if x == msgs[j].id && msgs[j].signals@.len() > 0 && !before.ids().contains(x) {
                        assert(last_logged(msgs, x, j)) by {
                            assert forall|k2: int| j < k2 < msgs.len() && (#[trigger] msgs[k2]).id == x implies msgs[k2].signals@.len() == 0 by {
                                if msgs[k2].signals@.len() > 0 {
                                    assert(logged_message(msgs, j + 1, x));
                                }
                            }
                        }
                    } else {
                        assert(before.ids().contains(x));
                        let kb = choose|kb: int| 0 <= kb < before.ids().len() && before.ids()[kb] == x;
                        assert(before.buffers@[kb].id == x);
                    }
                }
            }
        }
        proof {
            assert forall|x: u32| #[trigger] l.timestamps(x).len() == 0 by {
                if l.ids().contains(x) {
                    let k = choose|k: int| 0 <= k < l.ids().len() && l.ids()[k] == x;
                    l.lemma_slot(k);
                }
            }
        }
        l
    }
}

impl DbcMdfLogger {
    /// The position of message `id`, if it is logged.
    fn find_buffer(&self, id: u32) -> (r: Option<usize>)
        requires
            self.wf(),
        ensures
            match r {
                Some(k) => k < self.buffers@.len() && self.buffers@[k as int].id == id && self.slot(id) == k
                    && self.ids().contains(id),
                None => !self.ids().contains(id),
            },
    {
        let mut k: usize = 0;
        while k < self.buffers.len()
            invariant
                self.wf(),
                k <= self.buffers@.len(),
                forall|j: int| 0 <= j < k ==> (#[trigger] self.buffers@[j]).id != id,
            decreases self.buffers@.len() - k,
        {
            if self.buffers[k].id == id {
                proof {
                    self.lemma_slot(k as int);
                }
                return Some(k);
            }
            k = k + 1;
        }
        proof {
            if self.ids().contains(id) {
                let j = choose|j: int| 0 <= j < self.ids().len() && self.ids()[j] == id;
                assert(self.buffers@[j].id == id);
            }
        }
        None
    }

    /// Buffers a frame of message `dbc_id` whose signals a decoder gave
    /// as `decoded`: its timestamp, and for each signal of the message the
    /// raw value (when raw values are stored) or the physical value of the
    /// first decoded signal of that name, zero when there is none. Returns
    /// whether the message is logged; nothing changes when it is not.
    pub fn log_decoded(&mut self, dbc_id: u32, timestamp_us: u64, decoded: &[DecodedSignal]) -> (r: bool)
        requires
            old(self).wf(),
        ensures
            final(self).wf(),
            r == old(self).ids().contains(dbc_id),
            final(self).ids() == old(self).ids(),
            final(self).spec_config() == old(self).spec_config(),
            final(self).spec_initialized() == old(self).spec_initialized(),
            forall|x: u32| #[trigger] final(self).signals(x) == old(self).signals(x),
            !r ==> *final(self) == *old(self),
            r ==> final(self).timestamps(dbc_id) == old(self).timestamps(dbc_id).push(timestamp_us),
            r ==> forall|i: int|
                0 <= i < old(self).signals(dbc_id).len() ==> if old(self).spec_config().store_raw_values {
                    #[trigger] final(self).raw_values(dbc_id, i) == old(self).raw_values(dbc_id, i).push(
                        decoded_raw(decoded@, old(self).signals(dbc_id)[i].name@),
                    ) && final(self).physical_values(dbc_id, i) == old(self).physical_values(dbc_id, i)
                } else {
                    final(self).physical_values(dbc_id, i) == old(self).physical_values(dbc_id, i).push(
                        decoded_value(decoded@, old(self).signals(dbc_id)[i].name@),
                    ) && final(self).raw_values(dbc_id, i) == old(self).raw_values(dbc_id, i)
                },
            forall|x: u32|
                x != dbc_id ==> #[trigger] final(self).timestamps(x) == old(self).timestamps(x) && forall|i: int|
                    #[trigger] final(self).raw_values(x, i) == old(self).raw_values(x, i)
                        && final(self).physical_values(x, i) == old(self).physical_values(x, i),
    {
        let k = match self.find_buffer(dbc_id) {
            Some(k) => k,
            None => {
                return false;
            },
        };
        let ghost s0 = *self;
        self.buffers[k].timestamps.push(timestamp_us);
        let n = self.buffers[k].signals.len();
        let mut i: usize = 0;
        while i < n
            invariant
                0 <= k < self.buffers@.len(),
                self.buffers@.len() == s0.buffers@.len(),
                n == s0.buffers@[k as int].signals@.len(),
                i <= n,
                self.config == s0.config,
                self.writer == s0.writer,
                self.channel_groups == s0.channel_groups,
                self.initialized == s0.initialized,
                forall|j: int| 0 <= j < self.buffers@.len() && j != k ==> #[trigger] self.buffers@[j] == s0.buffers@[j],
                self.buffers@[k as int].id == s0.buffers@[k as int].id,
                self.buffers@[k as int].signals == s0.buffers@[k as int].signals,
                self.buffers@[k as int].name == s0.buffers@[k as int].name,
                self.buffers@[k as int].timestamps@ == s0.buffers@[k as int].timestamps@.push(timestamp_us),
                self.buffers@[k as int].raw_values@.len() == n,
                self.buffers@[k as int].physical_values@.len() == n,
                s0.buffers@[k as int].wf(),
                forall|j: int|
                    0 <= j < n ==> (#[trigger] self.buffers@[k as int].raw_values@[j])@ == if j < i
                        && s0.config.store_raw_values {
                        s0.buffers@[k as int].raw_values@[j]@.push(
                            decoded_raw(decoded@, s0.buffers@[k as int].signals@[j].name@),
                        )
                    } else {
                        s0.buffers@[k as int].raw_values@[j]@
                    },
                forall|j: int|
                    0 <= j < n ==> (#[trigger] self.buffers@[k as int].physical_values@[j])@ == if j < i
                        && !s0.config.store_raw_values {
                        s0.buffers@[k as int].physical_values@[j]@.push(
                            decoded_value(decoded@, s0.buffers@[k as int].signals@[j].name@),
                        )
                    } else {
                        s0.buffers@[k as int].physical_values@[j]@
                    },
            decreases n - i,
        {
            let ghost sb = *self;
            let found = find_named(decoded, self.buffers[k].signals[i].name.as_str());
            let ghost nm = s0.buffers@[k as int].signals@[i as int].name@;
            if self.config.store_raw_values {
                let v: i64 = match found {
                    Some(d) => decoded[d].raw_value,
                    None => 0,
                };
                assert(v == decoded_raw(decoded@, nm));
                self.buffers[k].raw_values[i].push(v);
                proof {
                    assert(self.buffers@[k as int].physical_values == sb.buffers@[k as int].physical_values);
                    assert forall|j: int| 0 <= j < n && j != i implies #[trigger] self.buffers@[k as int].raw_values@[j]
                        == sb.buffers@[k as int].raw_values@[j] by {}
                    assert(self.buffers@[k as int].raw_values@[i as int]@ == sb.buffers@[k as int].raw_values@[i as int]@.push(v));
                }
            } else {
                let v: u64 = match found {
                    Some(d) => decoded[d].value,
                    None => 0,
                };
                assert(v == decoded_value(decoded@, nm));
                self.buffers[k].physical_values[i].push(v);
                proof {
                    assert(self.buffers@[k as int].raw_values == sb.buffers@[k as int].raw_values);
                    assert forall|j: int| 0 <= j < n && j != i implies #[trigger] self.buffers@[k as int].physical_values@[j]
                        == sb.buffers@[k as int].physical_values@[j] by {}
                    assert(self.buffers@[k as int].physical_values@[i as int]@ == sb.buffers@[k as int].physical_values@[i as int]@.push(v));
                }
            }
            i = i + 1;
        }
        proof {
            assert(self.ids() =~= s0.ids());
            assert forall|j: int| 0 <= j < self.buffers@.len() implies (#[trigger] self.buffers@[j]).wf() by {
                if j != k {
                    assert(self.buffers@[j] == s0.buffers@[j]);
                }
            }
            assert forall|x: u32| #[trigger] self.signals(x) == s0.signals(x) by {
                if s0.ids().contains(x) {
                    let j = choose|j: int| 0 <= j < s0.ids().len() && s0.ids()[j] == x;
                    s0.lemma_slot(j);
                    self.lemma_slot(j);
                }
            }
            assert forall|x: u32| x != dbc_id implies #[trigger] self.timestamps(x) == s0.timestamps(x) && forall|i: int|
                #[trigger] self.raw_values(x, i) == s0.raw_values(x, i) && self.physical_values(x, i) == s0.physical_values(x, i) by {
                if s0.ids().contains(x) {
                    let j = choose|j: int| 0 <= j < s0.ids().len() && s0.ids()[j] == x;
                    s0.lemma_slot(j);
                    self.lemma_slot(j);
                    assert(self.buffers@[j] == s0.buffers@[j]);
                }
            }
        }
        true
    }

    /// The number of frames buffered for message `can_id`.
    pub fn frame_count(&self, can_id: u32) -> (r: usize)
        requires
            self.wf(),
        ensures
            r == self.timestamps(can_id).len(),
    {
        match self.find_buffer(can_id) {
            Some(k) => self.buffers[k].timestamps.len(),
            None => 0,
        }
    }

    /// The identifiers of the logged messages, in ascending order.
    pub fn can_ids(&self) -> (r: Vec<u32>)
        ensures
            r@ == self.ids(),
    {
        let mut v: Vec<u32> = Vec::new();
        let mut i: usize = 0;
        while i < self.buffers.len()
            invariant
                i <= self.buffers@.len(),
                v@ == self.ids().subrange(0, i as int),
            decreases self.buffers@.len() - i,
        {
            v.push(self.buffers[i].id);
            i = i + 1;
            assert(v@ =~= self.ids().subrange(0, i as int));
        }
        assert(self.ids().subrange(0, i as int) =~= self.ids());
        v
    }

    /// The number of logged messages.
    pub fn message_count(&self) -> (r: usize)
        ensures
            r == self.ids().len(),
    {
        self.buffers.len()
    }

    /// The number of signals over all logged messages (at most
    /// `usize::MAX`).
    pub fn total_signal_count(&self) -> (r: usize)
        requires
            self.wf(),
        ensures
            r == min_usize(signal_total(self.ids().map_values(|x: u32| self.signals(x).len()))),
    {
        let ghost counts = self.buffers@.map_values(|b: MessageBuffer| b.signals@.len());
        let mut total: usize = 0;
        let mut i: usize = 0;
        while i < self.buffers.len()
            invariant
                i <= self.buffers@.len(),
                counts == self.buffers@.map_values(|b: MessageBuffer| b.signals@.len()),
                total == min_usize(signal_total(counts.subrange(0, i as int))),
            decreases self.buffers@.len() - i,
        {
            proof {
                assert(counts.subrange(0, i + 1).drop_last() =~= counts.subrange(0, i as int));
            }
            total = total.saturating_add(self.buffers[i].signals.len());
            i = i + 1;
        }
        proof {
            assert(counts.subrange(0, i as int) =~= counts);
            assert forall|k: int| 0 <= k < counts.len() implies #[trigger] counts[k] == self.ids().map_values(
                |x: u32| self.signals(x).len(),
            )[k] by {
                self.lemma_slot(k);
            }
            assert(counts =~= self.ids().map_values(|x: u32| self.signals(x).len()));
        }
        total
    }

    /// The logger's configuration.
    pub fn config(&self) -> (r: &DbcMdfLoggerConfig)
        ensures
            *r == self.spec_config(),
    {
        &self.config
    }
}

/// The sum of `counts`.
pub open spec fn signal_total(counts: Seq<nat>) -> nat
    decreases counts.len(),
{
    if counts.len() == 0 {
        0
    } else {
        signal_total(counts.drop_last()) + counts.last()
    }
}

/// `n`, or `usize::MAX` when it is larger.
pub open spec fn min_usize(n: nat) -> usize {
    if n <= usize::MAX {
        n as usize
    } else {
        usize::MAX
    }
}

/// Whether a text is short enough to be written as a block: its UTF-8
/// bytes leave room for a header within the address space.
fn text_fits(t: &str) -> (r: bool)
    ensures
        r == (t@.len() <= (usize::MAX - 32) / 4),
        r ==> t@.len() <= usize::MAX && encode_utf8(t@).len() + 32 <= usize::MAX,
{
    let l = t.unicode_len();
    proof {
        lemma_encode_utf8_len(t@);
    }
    l <= (usize::MAX - 32) / 4
}

/// The error for a text too long to be written.
fn text_too_long() -> (r: Error)
    ensures
        r is BlockSerializationError,
{
    Error::BlockSerializationError(concat_str("Text too long to be written", ""))
}

/// Whether a text is short enough to be written as a block (see
/// [`text_fits`]).
pub open spec fn text_short(t: Seq<char>) -> bool {
    t.len() <= (usize::MAX - 32) / 4
}

/// Whether every text of the value descriptions `vd` is short enough to be
/// written as a block.
pub open spec fn texts_short(vd: Seq<(i64, String)>) -> bool {
    forall|q: int| 0 <= q < vd.len() ==> text_short(#[trigger] vd[q].1@)
}

/// The value descriptions `vd` as value and text pairs, or `None` when a
/// text is too long to be written.
fn text_mapping<'a>(vd: &'a Vec<(i64, String)>) -> (r: Option<Vec<(i64, &'a str)>>)
    ensures
        r is Some <==> texts_short(vd@),
        r matches Some(m) ==> m@.len() == vd@.len() && forall|q: int|
            0 <= q < m@.len() ==> (#[trigger] m@[q]).0 == vd@[q].0 && m@[q].1@ == vd@[q].1@
                && m@[q].1@.len() <= usize::MAX && encode_utf8(m@[q].1@).len() + 32 <= usize::MAX,
{
    let mut mapping: Vec<(i64, &str)> = Vec::new();
    let mut j: usize = 0;
    while j < vd.len()
        invariant
            j <= vd@.len(),
            mapping@.len() == j,
            forall|q: int|
                0 <= q < j ==> (#[trigger] mapping@[q]).0 == vd@[q].0 && mapping@[q].1@ == vd@[q].1@
                    && mapping@[q].1@.len() <= usize::MAX && encode_utf8(mapping@[q].1@).len() + 32 <= usize::MAX,
            forall|q: int| 0 <= q < j ==> text_short(#[trigger] vd@[q].1@),
        decreases vd@.len() - j,
    {
        if !text_fits(vd[j].1.as_str()) {
            proof {
                assert(!text_short(vd@[j as int].1@));
            }
            return None;
        }
        mapping.push((vd[j].0, vd[j].1.as_str()));
        j = j + 1;
    }
    Some(mapping)
}

/// Whether a binary64 bit pattern is a zero of either sign.
pub open spec fn is_zero_bits(b: u64) -> bool {
    b & 0x7FFF_FFFF_FFFF_FFFF == 0
}

/// A channel of the given name, data type and bit count.
fn new_channel(name: String, data_type: DataType, bits: u32) -> (r: ChannelBlock)
    ensures
        r.serializable(),
        r.name == Some(name),
        r.data_type == data_type,
        r.bit_count == bits,
        r.byte_offset == 0 && r.bit_offset == 0,
{
    let mut ch = ChannelBlock::default();
    ch.data_type = data_type;
    ch.name = Some(name);
    ch.bit_count = bits;
    ch
}

/// The name of the time channel of message `can_id`: `Time_0x` and the
/// identifier in upper-case hexadecimal.
pub open spec fn time_channel_name(can_id: u32) -> Seq<char> {
    seq!['T', 'i', 'm', 'e', '_', '0', 'x'] + hex_chars(can_id as nat, 0)
}

/// Renders [`time_channel_name`].
fn time_channel_name_of(can_id: u32) -> (r: String)
    ensures
        r@ == time_channel_name(can_id),
        r@.len() <= 17,
{
    proof {
        reveal_strlit("Time_0x");
        reveal_with_fuel(pow16, 9);
        assert(pow16(8) == 0x1_0000_0000);
        lemma_hex_chars_len(can_id as nat, 0, 8);
    }
    let h = hex_string(can_id as u64, 0);
    concat_str("Time_0x", h.as_str())
}

/// What holds of an image changed only in its bytes after a channel was
/// added to group `cg`.
proof fn lemma_after_channel(w: &MdfWriter, w1: &MdfWriter, s0: &MdfWriter, cg: BlockId)
    requires
        w.same_layout(*w1),
        w.extends(w1),
        w1.keeps_other_groups(s0, cg),
        w1.extends(s0),
    ensures
        w.keeps_other_groups(s0, cg),
        w.extends(s0),
        w.group_layout(cg) == w1.group_layout(cg),
        w.group_record_bytes(cg) == w1.group_record_bytes(cg),
{
    w.lemma_same_layout(w1);
    w.lemma_keeps_trans(w1, s0, cg);
    w.lemma_extends_trans(w1, s0);
}

/// The data type a signal's channel stores values with.
pub open spec fn signal_data_type(sig: SignalInfo, raw: bool) -> DataType {
    if raw {
        sig.data_type
    } else {
        DataType::FloatLE
    }
}

/// The bits a signal's channel stores values with.
pub open spec fn signal_bits(sig: SignalInfo, raw: bool) -> u32 {
    if !raw {
        64
    } else if sig.bit_count == 0 {
        data_type_default_bits(sig.data_type)
    } else {
        sig.bit_count
    }
}

/// The record layout entry of a signal's channel placed at `used` bytes.
pub open spec fn signal_entry(sig: SignalInfo, raw: bool, used: u64) -> ChannelLayout {
    ChannelLayout {
        data_type: signal_data_type(sig, raw),
        byte_offset: used as u32,
        bit_offset: 0,
        bit_count: signal_bits(sig, raw),
    }
}

/// The record bytes the channels take once a signal's channel is placed
/// at `used` bytes.
pub open spec fn signal_end(sig: SignalInfo, raw: bool, used: u64) -> int {
    (used as u32) + (signal_bits(sig, raw) + 7) / 8
}

/// Whether what the channel of `sig` carries besides its name, as
/// `config` asks, can be written: its unit, and in raw mode its value
/// descriptions (each text short enough, and not so many that the table
/// could not be addressed) or else its conversion (with reference and value
/// lists of at most 2^24 entries).
pub open spec fn decoration_fits(sig: SignalInfo, config: DbcMdfLoggerConfig) -> bool {
    &&& config.include_units ==> (sig.unit matches Some(u) ==> text_short(u@))
    &&& config.store_raw_values && config.include_value_descriptions && sig.value_descriptions is Some ==> {
        let vd = sig.value_descriptions->0@;
        vd.len() > 0 ==> vd.len() <= (usize::MAX - 128) / 16 && texts_short(vd)
    }
    &&& config.store_raw_values && !(config.include_value_descriptions && sig.value_descriptions is Some)
        && config.include_conversions && sig.conversion is Some ==> sig.conversion->0.cc_ref@.len() <= 0x100_0000
        && sig.conversion->0.cc_val@.len() <= 0x100_0000
}

/// Whether the channel of `sig` can be written as `config` asks: its name
/// is short enough and what it carries can be written.
pub open spec fn signal_fits(sig: SignalInfo, config: DbcMdfLoggerConfig) -> bool {
    text_short(sig.name@) && decoration_fits(sig, config)
}

/// Whether the records of a message's group can be addressed: the record
/// layout of its signals ends within the address space.
pub open spec fn layout_fits(signals: Seq<SignalInfo>, raw: bool) -> bool {
    layout_end(dbc_layout(signals, raw)) <= usize::MAX
}

/// The sender DBC databases give a message that no node sends.
pub open spec fn unknown_sender_name() -> Seq<char> {
    seq!['V', 'e', 'c', 't', 'o', 'r', '_', '_', 'X', 'X', 'X']
}

/// Whether `groups` holds channel group `cg`.
fn holds_group(groups: &Vec<(u32, BlockId)>, cg: BlockId) -> (r: bool)
    ensures
        r == exists|q: int| 0 <= q < groups@.len() && (#[trigger] groups@[q]).1 == cg,
{
    let mut j: usize = 0;
    while j < groups.len()
        invariant
            j <= groups@.len(),
            forall|q: int| 0 <= q < j ==> (#[trigger] groups@[q]).1 != cg,
        decreases groups@.len() - j,
    {
        if groups[j].1 == cg {
            return true;
        }
        j = j + 1;
    }
    false
}

/// The time channel of a message's group: 64-bit unsigned microseconds at
/// the start of the record.
pub open spec fn time_entry() -> ChannelLayout {
    ChannelLayout { data_type: DataType::UnsignedIntegerLE, byte_offset: 0, bit_offset: 0, bit_count: 64 }
}

/// The record bytes the time channel and the first `n` signal channels
/// take.
pub open spec fn dbc_used(signals: Seq<SignalInfo>, raw: bool, n: int) -> int
    decreases n,
{
    if n <= 0 {
        8
    } else {
        signal_end(signals[n - 1], raw, dbc_used(signals, raw, n - 1) as u64)
    }
}

/// The record layout of a message's group with its first `n` signals.
pub open spec fn dbc_layout_n(signals: Seq<SignalInfo>, raw: bool, n: int) -> Seq<ChannelLayout>
    decreases n,
{
    if n <= 0 {
        seq![time_entry()]
    } else {
        dbc_layout_n(signals, raw, n - 1).push(signal_entry(signals[n - 1], raw, dbc_used(signals, raw, n - 1) as u64))
    }
}

/// The names of the channels of a message's group: the time channel
/// `Time_0x` and the identifier in hexadecimal, then each signal's name.
pub open spec fn dbc_channel_names(can_id: u32, signals: Seq<SignalInfo>) -> Seq<Option<Seq<char>>> {
    seq![Some(time_channel_name(can_id))] + signals.map_values(|s: SignalInfo| Some(s.name@))
}

/// The record layout of a message's group: the time channel, then a
/// channel per signal, each after the previous ones.
pub open spec fn dbc_layout(signals: Seq<SignalInfo>, raw: bool) -> Seq<ChannelLayout> {
    dbc_layout_n(signals, raw, signals.len() as int)
}

impl DbcMdfLogger {
    /// Adds the channel of signal `s` of the message at position `k` to
    /// group `cg` after channel `prev`, then its unit, its limits, and its
    /// value descriptions or conversion, as the configuration asks.
    fn add_signal_channel(&mut self, k: usize, s: usize, cg: BlockId, prev: BlockId) -> (r: Result<BlockId>)
        requires
            old(self).wf_core(),
            k < old(self).buffers@.len(),
            s < old(self).buffers@[k as int].signals@.len(),
            prev is Channel,
            old(self).writer.position_of(prev) is Some,
        ensures
            r is Ok <==> signal_fits(old(self).buffers@[k as int].signals@[s as int], old(self).config),
            r is Ok && old(self).writer.has_group(cg) ==> final(self).writer.group_channel_names(cg)
                == old(self).writer.group_channel_names(cg).push(
                Some(old(self).buffers@[k as int].signals@[s as int].name@),
            ),
            r matches Ok(c) ==> c is Channel && final(self).writer.position_of(c) is Some,
            r matches Ok(c) ==> final(self).writer.channel_units_map() == if old(self).config.include_units
                && old(self).buffers@[k as int].signals@[s as int].unit is Some {
                old(self).writer.channel_units_map().insert(
                    c,
                    old(self).buffers@[k as int].signals@[s as int].unit->0@,
                )
            } else {
                old(self).writer.channel_units_map()
            },
            forall|x: BlockId| #[trigger] final(self).writer.is_open(x) == old(self).writer.is_open(x),
            final(self).writer.cg_kept(&old(self).writer),
            final(self).writer.group_names_map() == old(self).writer.group_names_map(),
            final(self).wf_core(),
            final(self).buffers == old(self).buffers,
            final(self).config == old(self).config,
            final(self).channel_groups == old(self).channel_groups,
            final(self).initialized == old(self).initialized,
            final(self).writer.extends(&old(self).writer),
            final(self).writer.keeps_other_groups(&old(self).writer, cg),
            r is Ok && old(self).writer.has_group(cg) ==> final(self).writer.group_layout(cg)
                == old(self).writer.group_layout(cg).push(
                signal_entry(
                    old(self).buffers@[k as int].signals@[s as int],
                    old(self).config.store_raw_values,
                    old(self).writer.group_record_bytes(cg),
                ),
            ) && final(self).writer.group_record_bytes(cg) == signal_end(
                old(self).buffers@[k as int].signals@[s as int],
                old(self).config.store_raw_values,
                old(self).writer.group_record_bytes(cg),
            ),
    {
        let ghost s0 = *self;
        let name = self.buffers[k].signals[s].name.clone();
        if !text_fits(name.as_str()) {
            return Err(text_too_long());
        }
        let ch = if self.config.store_raw_values {
            new_channel(name, self.buffers[k].signals[s].data_type, self.buffers[k].signals[s].bit_count)
        } else {
            new_channel(name, DataType::FloatLE, 64)
        };
        let cn = match self.writer.add_channel(cg, Some(prev), ch) {
            Ok(c) => c,
            Err(e) => {
                return Err(e);
            },
        };
        let ghost w1 = self.writer;
        let r = self.decorate_signal_channel(k, s, cn);
        proof {
            assert(w1.position_of(cn) is Some);
            self.writer.lemma_same_layout(&w1);
        }
        proof {
            lemma_after_channel(&self.writer, &w1, &s0.writer, cg);
        }
        match r {
            Ok(()) => Ok(cn),
            Err(e) => Err(e),
        }
    }

    /// Writes the unit, the limits and the value descriptions or the
    /// conversion of signal `s` of the message at position `k` for its
    /// channel `cn`, as the configuration asks.
    fn decorate_signal_channel(&mut self, k: usize, s: usize, cn: BlockId) -> (r: Result<()>)
        requires
            old(self).wf_core(),
            k < old(self).buffers@.len(),
            s < old(self).buffers@[k as int].signals@.len(),
            cn is Channel,
            old(self).writer.position_of(cn) is Some,
        ensures
            r is Ok <==> decoration_fits(old(self).buffers@[k as int].signals@[s as int], old(self).config),
            final(self).writer.cg_kept(&old(self).writer),
            final(self).writer.group_names_map() == old(self).writer.group_names_map(),
            final(self).wf_core(),
            final(self).buffers == old(self).buffers,
            final(self).config == old(self).config,
            final(self).channel_groups == old(self).channel_groups,
            final(self).initialized == old(self).initialized,
            final(self).writer.extends(&old(self).writer),
            final(self).writer.same_layout(old(self).writer),
            r is Ok ==> final(self).writer.channel_units_map() == if old(self).config.include_units
                && old(self).buffers@[k as int].signals@[s as int].unit is Some {
                old(self).writer.channel_units_map().insert(
                    cn,
                    old(self).buffers@[k as int].signals@[s as int].unit->0@,
                )
            } else {
                old(self).writer.channel_units_map()
            },
    {
        let ghost s0 = *self;
        proof {
            self.writer.lemma_same_layout_refl();
        }
        if self.config.include_units {
            match &self.buffers[k].signals[s].unit {
                Some(u) => {
                    if !text_fits(u.as_str()) {
                        return Err(text_too_long());
                    }
                    match self.writer.set_channel_unit(cn, u.as_str()) {
                        Ok(()) => {},
                        Err(e) => {
                            return Err(e);
                        },
                    }
                },
                None => {},
            }
        }
        let ghost w2 = self.writer;
        let min = self.buffers[k].signals[s].min;
        let max = self.buffers[k].signals[s].max;
        proof {
            self.writer.lemma_block_within(cn);
        }
        if self.config.include_limits && (min & 0x7FFF_FFFF_FFFF_FFFF != 0 || max & 0x7FFF_FFFF_FFFF_FFFF != 0) {
            let r = self.writer.set_channel_limits(cn, min, max);
            proof {
                self.writer.lemma_extends_trans(&w2, &s0.writer);
                self.writer.lemma_same_layout_trans(&w2, &s0.writer);
            }
            match r {
                Ok(()) => {},
                Err(e) => {
                    return Err(e);
                },
            }
        }
        let ghost w3 = self.writer;
        if self.config.store_raw_values {
            let described = self.config.include_value_descriptions
                && self.buffers[k].signals[s].value_descriptions.is_some();
            if described {
                match &self.buffers[k].signals[s].value_descriptions {
                    Some(vd) => {
                        if vd.len() > 0 {
                            if vd.len() > (usize::MAX - 128) / 16 {
                                return Err(text_too_long());
                            }
                            let mapping = match text_mapping(vd) {
                                Some(m) => m,
                                None => {
                                    return Err(text_too_long());
                                },
                            };
                            proof {
                                reveal_strlit("");
                                assert(encode_utf8(""@).len() == 0);
                            }
                            let r = self.writer.add_value_to_text_conversion(mapping.as_slice(), "", Some(cn));
                            proof {
                                self.writer.lemma_extends_trans(&w3, &s0.writer);
                                self.writer.lemma_same_layout_trans(&w3, &s0.writer);
                            }
                            match r {
                                Ok(_) => {},
                                Err(e) => {
                                    return Err(e);
                                },
                            }
                        }
                    },
                    None => {},
                }
            } else if self.config.include_conversions {
                match &self.buffers[k].signals[s].conversion {
                    Some(conv) => {
                        if conv.cc_ref.len() > 0x100_0000 || conv.cc_val.len() > 0x100_0000 {
                            return Err(text_too_long());
                        }
                        let r = self.writer.set_channel_conversion(cn, conv);
                        proof {
                            self.writer.lemma_extends_trans(&w3, &s0.writer);
                            self.writer.lemma_same_layout_trans(&w3, &s0.writer);
                        }
                        match r {
                            Ok(()) => {},
                            Err(e) => {
                                return Err(e);
                            },
                        }
                    },
                    None => {},
                }
            }
        }
        Ok(())
    }
}

impl DbcMdfLogger {
    /// Writes the identification and header blocks and one channel group
    /// per logged message, in ascending order of identifier: named after
    /// the message, with its sender as source (unless it is empty or
    /// `Vector__XXX`), a time channel in microseconds and a channel per
    /// signal. Fails exactly when the channel group of a message cannot be
    /// written, a text being too long; nothing is kept of the structure
    /// then.
    fn initialize_mdf(&mut self) -> (r: Result<()>)
        requires
            old(self).wf(),
            !old(self).initialized,
        ensures
            final(self).wf(),
            final(self).buffers == old(self).buffers,
            final(self).config == old(self).config,
            r is Ok ==> final(self).initialized,
            r is Err ==> !final(self).initialized,
            r is Ok <==> forall|k: int|
                0 <= k < old(self).buffers@.len() ==> Self::message_fits(#[trigger] old(self).buffers@[k], old(self).config),
    {
        let ghost w_empty = self.writer;
        let init = self.writer.init_mdf_file();
        match init {
            Ok(_) => {},
            Err(e) => {
                self.reset();
                return Err(e);
            },
        }
        proof {
            assert forall|x: BlockId| !(#[trigger] self.writer.is_open(x)) by {
                w_empty.lemma_open_group(x);
            }
            assert(cg_ids_below(w_empty.table()));
        }
        let mut groups: Vec<(u32, BlockId)> = Vec::new();
        let mut idx: usize = 0;
        while idx < self.buffers.len()
            invariant
                self.wf_core(),
                !self.initialized,
                self.channel_groups@.len() == 0,
                idx <= self.buffers@.len(),
                groups@.len() == idx,
                self.groups_laid_out(groups@, self.writer),
                self.buffers == old(self).buffers,
                self.config == old(self).config,
                self.writer.position_of(BlockId::Header) is Some,
                forall|x: BlockId| !(#[trigger] self.writer.is_open(x)),
                forall|k: int| 0 <= k < idx ==> Self::message_fits(#[trigger] self.buffers@[k], self.config),
                cg_ids_below(self.writer.table()),
            decreases self.buffers@.len() - idx,
        {
            let ghost w0 = self.writer;
            let cg = match self.add_message_group(idx) {
                Ok(c) => c,
                Err(e) => {
                    self.reset();
                    return Err(e);
                },
            };
            proof {
                assert(!w0.has_group(cg));
                assert forall|k: int| 0 <= k < groups@.len() implies (#[trigger] groups@[k]).1 != cg by {
                    assert(w0.has_group(groups@[k].1));
                }
            }
            if holds_group(&groups, cg) {
                self.reset();
                return Err(text_too_long());
            }
            let ghost before = groups@;
            groups.push((self.buffers[idx].id, cg));
            proof {
                assert forall|k: int| 0 <= k < groups@.len() implies (#[trigger] groups@[k]).0 == self.buffers@[k].id
                    && self.writer.has_group(groups@[k].1) && self.writer.group_layout(groups@[k].1) == dbc_layout(
                    self.buffers@[k].signals@,
                    self.config.store_raw_values,
                ) by {
                    if k < before.len() {
                        assert(groups@[k] == before[k]);
                        assert(w0.has_group(before[k].1));
                        assert(before[k].1 != cg);
                    }
                }
            }
            idx = idx + 1;
        }
        self.channel_groups = groups;
        self.initialized = true;
        proof {
            assert forall|k: int| 0 <= k < self.channel_groups@.len() implies self.writer.open_block(
                #[trigger] self.channel_groups@[k].1,
            ) is None by {
                self.writer.lemma_open_block(self.channel_groups@[k].1);
            }
        }
        Ok(())
    }

    /// Forgets a partly written MDF structure.
    fn reset(&mut self)
        requires
            old(self).wf_core(),
        ensures
            final(self).wf(),
            !final(self).initialized,
            final(self).buffers == old(self).buffers,
            final(self).config == old(self).config,
    {
        self.writer = MdfWriter::new();
        self.channel_groups = Vec::new();
        self.initialized = false;
    }

    /// Adds the time channel of message `can_id` first to the empty group
    /// `cg`: 64-bit unsigned microseconds, the group's master channel.
    fn add_time_channel(&mut self, cg: BlockId, can_id: u32) -> (r: Result<BlockId>)
        requires
            old(self).wf_core(),
            old(self).writer.has_group(cg),
            old(self).writer.group_layout(cg) == Seq::<ChannelLayout>::empty(),
            old(self).writer.group_channel_names(cg) == Seq::<Option<Seq<char>>>::empty(),
            old(self).writer.group_record_bytes(cg) == 0,
        ensures
            final(self).wf_core(),
            final(self).buffers == old(self).buffers,
            final(self).config == old(self).config,
            final(self).channel_groups == old(self).channel_groups,
            final(self).initialized == old(self).initialized,
            final(self).writer.extends(&old(self).writer),
            final(self).writer.keeps_other_groups(&old(self).writer, cg),
            final(self).writer.has_group(cg),
            r is Ok,
            r matches Ok(c) ==> c is Channel && final(self).writer.position_of(c) is Some,
            forall|x: BlockId| #[trigger] final(self).writer.is_open(x) == old(self).writer.is_open(x),
            final(self).writer.cg_kept(&old(self).writer),
            final(self).writer.group_names_map() == old(self).writer.group_names_map(),
            r is Ok ==> final(self).writer.group_channel_names(cg) == seq![Some(time_channel_name(can_id))],
            r is Ok ==> final(self).writer.group_layout(cg) == seq![time_entry()] && final(self).writer.group_record_bytes(
                cg,
            ) == 8,
    {
        let ghost s0 = *self;
        let time_name = time_channel_name_of(can_id);
        proof {
            lemma_encode_utf8_len(time_name@);
            self.writer.lemma_group_blocks(cg);
        }
        let time_ch = match self.writer.add_channel(cg, None, new_channel(time_name, DataType::UnsignedIntegerLE, 64)) {
            Ok(c) => c,
            Err(e) => {
                return Err(e);
            },
        };
        let ghost w3 = self.writer;
        proof {
            self.writer.lemma_same_layout_refl();
            assert(self.writer.group_layout(cg) =~= seq![time_entry()]);
            assert(self.writer.group_channel_names(cg) =~~= seq![Some(time_channel_name(can_id))]);
            self.writer.lemma_block_within(time_ch);
        }
        let r1 = self.writer.set_time_channel(time_ch);
        let ghost w4 = self.writer;
        proof {
            reveal_strlit("us");
            lemma_encode_utf8_len("us"@);
        }
        let r2 = if r1.is_ok() {
            self.writer.set_channel_unit(time_ch, "us")
        } else {
            r1
        };
        proof {
            if r1.is_ok() {
                self.writer.lemma_same_layout_trans(&w4, &w3);
            }
            self.writer.lemma_same_layout(&w3);
            lemma_after_channel(&self.writer, &w3, &s0.writer, cg);
        }
        match r2 {
            Ok(()) => Ok(time_ch),
            Err(e) => Err(e),
        }
    }

    /// Whether the channel group of a buffered message can be written as
    /// `config` asks: its name, when it has one, and its sender, when it
    /// is named, are short enough, and so is each signal's channel.
    closed spec fn message_fits(b: MessageBuffer, config: DbcMdfLoggerConfig) -> bool {
        &&& b.name@.len() > 0 ==> text_short(b.name@)
        &&& b.sender@.len() > 0 && b.sender@ != unknown_sender_name() ==> text_short(b.sender@)
        &&& forall|j: int| 0 <= j < b.signals@.len() ==> signal_fits(#[trigger] b.signals@[j], config)
    }

    /// Writes the channel group of the message at position `idx`.
    fn add_message_group(&mut self, idx: usize) -> (r: Result<BlockId>)
        requires
            old(self).wf_core(),
            idx < old(self).buffers@.len(),
            old(self).writer.position_of(BlockId::Header) is Some,
        ensures
            r is Ok <==> Self::message_fits(old(self).buffers@[idx as int], old(self).config),
            forall|x: BlockId| #[trigger] final(self).writer.is_open(x) ==> old(self).writer.is_open(x),
            r matches Ok(cg) ==> !final(self).writer.is_open(cg),
            final(self).writer.cg_kept(&old(self).writer),
            r matches Ok(cg) ==> (cg_ids_below(old(self).writer.table()) ==> !old(self).writer.has_group(cg)),
            final(self).wf_core(),
            final(self).buffers == old(self).buffers,
            final(self).config == old(self).config,
            final(self).channel_groups == old(self).channel_groups,
            final(self).initialized == old(self).initialized,
            final(self).writer.extends(&old(self).writer),
            r matches Ok(cg) ==> final(self).writer.has_group(cg) && final(self).writer.keeps_other_groups(
                &old(self).writer,
                cg,
            ) && final(self).writer.group_layout(cg) == dbc_layout(
                old(self).buffers@[idx as int].signals@,
                old(self).config.store_raw_values,
            ) && final(self).writer.group_channel_names(cg) == dbc_channel_names(
                old(self).buffers@[idx as int].id,
                old(self).buffers@[idx as int].signals@,
            ) && final(self).writer.group_names_map() == if old(self).buffers@[idx as int].name@.len() > 0 {
                old(self).writer.group_names_map().insert(cg, old(self).buffers@[idx as int].name@)
            } else {
                old(self).writer.group_names_map()
            },
    {
        let ghost s0 = *self;
        let ghost sigs = self.buffers@[idx as int].signals@;
        let ghost raw = self.config.store_raw_values;
        let can_id = self.buffers[idx].id;
        let cg = match self.writer.add_channel_group(None, ChannelGroupBlock::default()) {
            Ok(c) => c,
            Err(e) => {
                return Err(e);
            },
        };
        let ghost w1 = self.writer;
        proof {
            self.writer.lemma_same_layout_refl();
        }
        if self.buffers[idx].name.as_str().unicode_len() > 0 {
            if !text_fits(self.buffers[idx].name.as_str()) {
                return Err(text_too_long());
            }
            match self.writer.set_channel_group_name(cg, self.buffers[idx].name.as_str()) {
                Ok(()) => {},
                Err(e) => {
                    return Err(e);
                },
            }
        }
        let ghost w2 = self.writer;
        let unknown_sender = "Vector__XXX";
        proof {
            reveal_strlit("Vector__XXX");
            assert(unknown_sender@ =~= unknown_sender_name());
            self.writer.lemma_same_layout(&w1);
        }
        if self.buffers[idx].sender.as_str().unicode_len() > 0 && !str_eq(self.buffers[idx].sender.as_str(), unknown_sender) {
            if !text_fits(self.buffers[idx].sender.as_str()) {
                return Err(text_too_long());
            }
            let r = self.writer.set_channel_group_source_name(cg, self.buffers[idx].sender.as_str());
            proof {
                self.writer.lemma_same_layout_trans(&w2, &w1);
            }
            match r {
                Ok(()) => {},
                Err(e) => {
                    return Err(e);
                },
            }
        }
        proof {
            lemma_after_channel(&self.writer, &w1, &s0.writer, cg);
            self.writer.lemma_same_layout(&w1);
        }
        let ghost w_pre = self.writer;
        let time_ch = match self.add_time_channel(cg, can_id) {
            Ok(c) => c,
            Err(e) => {
                return Err(e);
            },
        };
        proof {
            self.writer.lemma_keeps_trans(&w_pre, &s0.writer, cg);
            self.writer.lemma_extends_trans(&w_pre, &s0.writer);
            assert(self.writer.group_layout(cg) =~= dbc_layout_n(sigs, raw, 0));
            assert(sigs.take(0).map_values(|x: SignalInfo| Some(x.name@)) =~= Seq::<Option<Seq<char>>>::empty());
            assert(dbc_channel_names(can_id, sigs.take(0)) =~= seq![Some(time_channel_name(can_id))]);
        }
        let mut prev = time_ch;
        let n = self.buffers[idx].signals.len();
        let mut s: usize = 0;
        while s < n
            invariant
                self.wf_core(),
                s0 == *old(self),
                idx < self.buffers@.len(),
                n == sigs.len(),
                sigs == self.buffers@[idx as int].signals@,
                raw == self.config.store_raw_values,
                s <= n,
                self.buffers == s0.buffers,
                self.config == s0.config,
                self.channel_groups == s0.channel_groups,
                self.initialized == s0.initialized,
                self.writer.extends(&s0.writer),
                self.writer.has_group(cg),
                self.writer.keeps_other_groups(&s0.writer, cg),
                self.writer.group_layout(cg) == dbc_layout_n(sigs, raw, s as int),
                self.writer.group_channel_names(cg) == dbc_channel_names(can_id, sigs.take(s as int)),
                can_id == s0.buffers@[idx as int].id,
                self.writer.group_record_bytes(cg) == dbc_used(sigs, raw, s as int),
                prev is Channel,
                self.writer.position_of(prev) is Some,
                forall|x: BlockId| #[trigger] self.writer.is_open(x) ==> s0.writer.is_open(x),
                !self.writer.is_open(cg),
                self.writer.cg_kept(&s0.writer),
                self.writer.group_names_map() == w2.group_names_map(),
                cg_ids_below(s0.writer.table()) ==> !s0.writer.has_group(cg),
                Self::message_fits(s0.buffers@[idx as int], s0.config) <==> forall|j: int|
                    s <= j < n ==> signal_fits(#[trigger] sigs[j], s0.config),
            decreases n - s,
        {
            let ghost ws = self.writer;
            prev = match self.add_signal_channel(idx, s, cg, prev) {
                Ok(c) => c,
                Err(e) => {
                    proof {
                        assert(!signal_fits(sigs[s as int], s0.config));
                    }
                    return Err(e);
                },
            };
            proof {
                self.writer.lemma_keeps_trans(&ws, &s0.writer, cg);
                self.writer.lemma_extends_trans(&ws, &s0.writer);
                assert(sigs.take(s + 1).map_values(|x: SignalInfo| Some(x.name@)) =~= sigs.take(s as int).map_values(
                    |x: SignalInfo| Some(x.name@),
                ).push(Some(sigs[s as int].name@)));
                assert(dbc_channel_names(can_id, sigs.take(s + 1)) =~= dbc_channel_names(can_id, sigs.take(s as int)).push(
                    Some(sigs[s as int].name@),
                ));
            }
            s = s + 1;
        }
        proof {
            assert(sigs.take(n as int) =~= sigs);
        }
        Ok(cg)
    }

    /// Writes the frames buffered for the message at position `idx` as one
    /// data block of its channel group, a record per frame: the timestamp,
    /// then per signal the raw value (unsigned or signed as the signal is)
    /// or the physical value. Nothing is written when the message has no
    /// frames. Below `bound`, above which no channel or data group block
    /// lies, the image only grows: the records are appended, one after the
    /// other.
    fn write_message_data(&mut self, idx: usize, Ghost(bound): Ghost<int>) -> (r: Result<()>)
        requires
            old(self).wf(),
            old(self).initialized,
            idx < old(self).buffers@.len(),
            groups_below_in(old(self).channel_groups@, old(self).writer, bound),
            bound <= old(self).writer.bytes().len(),
        ensures
            final(self).wf(),
            final(self).initialized,
            final(self).buffers == old(self).buffers,
            final(self).config == old(self).config,
            final(self).channel_groups == old(self).channel_groups,
            final(self).writer.extends(&old(self).writer),
            groups_below_in(final(self).channel_groups@, final(self).writer, bound),
            forall|j: int| bound <= j < old(self).writer.bytes().len() ==> #[trigger] final(self).writer.bytes()[j]
                == old(self).writer.bytes()[j],
            r is Ok <==> old(self).buffers@[idx as int].timestamps@.len() == 0 || layout_fits(
                old(self).buffers@[idx as int].signals@,
                old(self).config.store_raw_values,
            ),
            r is Ok && old(self).buffers@[idx as int].timestamps@.len() > 0 ==> holds_bytes(
                final(self).writer.bytes(),
                old(self).writer.bytes().len() as int,
                old(self).buffer_records(idx as int),
            ),
    {
        let ghost s0 = *self;
        if self.buffers[idx].timestamps.len() == 0 {
            return Ok(());
        }
        let cg = self.channel_groups[idx].1;
        let ghost w0 = self.writer;
        let ghost layout = dbc_layout(self.buffers@[idx as int].signals@, self.config.store_raw_values);
        proof {
            self.writer.lemma_group_blocks(cg);
            assert(self.channel_groups@[idx as int].1 == cg);
            assert(self.writer.open_block(cg) is None);
            assert(self.writer.group_layout(cg) == layout);
        }
        match self.writer.start_data_block_for_cg(cg, 0) {
            Ok(()) => {},
            Err(e) => {
                proof {
                    self.lemma_writer_kept(&s0, cg);
                }
                return Err(e);
            },
        }
        let ghost w1 = self.writer;
        let ghost o1 = w1.open_block(cg)->0;
        let ghost dg_pos = w0.position_of(w0.group_data_group(cg))->0;
        proof {
            crate::blocks::common::lemma_le_roundtrips();
            assert(dg_pos + 64 <= bound);
            let b0 = w0.bytes() + zeros(crate::writer::align_pad(w0.bytes().len() as int) as nat) + open_dt_header();
            lemma_splice_keeps(b0, dg_pos + 56, seq![0u8]);
            assert(open_dt_header().len() == 24);
            assert(w1.bytes().len() == o1.pos + 24);
            assert forall|j: int| bound <= j < w0.bytes().len() implies #[trigger] w1.bytes()[j] == w0.bytes()[j] by {
                assert(b0[j] == w0.bytes()[j]);
            }
        }
        let count = self.buffers[idx].timestamps.len();
        let mut f: usize = 0;
        while f < count
            invariant
                self.wf_core(),
                self.initialized == s0.initialized,
                self.buffers == s0.buffers,
                self.config == s0.config,
                self.channel_groups == s0.channel_groups,
                idx < self.buffers@.len(),
                count == self.buffers@[idx as int].timestamps@.len(),
                f <= count,
                self.writer.extends(&w0),
                self.writer.keeps_other_groups(&w0, cg),
                self.writer.group_layout(cg) == w0.group_layout(cg),
                self.writer.group_channel_names(cg) == w0.group_channel_names(cg),
                self.writer.group_names_map() == w0.group_names_map(),
                self.writer.group_data_group(cg) == w0.group_data_group(cg),
                w0.group_layout(cg) == layout,
                layout == dbc_layout(s0.buffers@[idx as int].signals@, s0.config.store_raw_values),
                self.writer.open_block(cg) == Some(OpenDataBlock { record_count: f as u64, ..o1 }),
                o1.record_id_len == 0,
                o1.record_size == layout_end(layout),
                self.writer.table() == w1.table(),
                self.writer.bytes() == w1.bytes() + s0.records_up_to(idx as int, f as int),
            decreases count - f,
        {
            let values = self.record_values(idx, f);
            let ghost wm = self.writer;
            match self.writer.write_record(cg, values.as_slice()) {
                Ok(()) => {},
                Err(e) => {
                    return Err(e);
                },
            }
            proof {
                self.writer.lemma_extends_trans(&wm, &w0);
                self.writer.lemma_keeps_trans(&wm, &w0, cg);
                let bb = s0.buffers@[idx as int];
                assert(bb == self.buffers@[idx as int]);
                assert(values@ == message_record(bb.timestamps@[f as int], s0.config.store_raw_values, bb.signals@,
                    raw_columns(bb), physical_columns(bb), f as int));
                assert(layout == dbc_layout(bb.signals@, s0.config.store_raw_values));
                assert(s0.records_up_to(idx as int, f + 1) == s0.records_up_to(idx as int, f as int) + encode_record(
                    layout,
                    values@,
                    0,
                    layout_end(layout) as nat,
                ));
                assert(self.writer.bytes() =~= w1.bytes() + s0.records_up_to(idx as int, f + 1));
            }
            f = f + 1;
        }
        let ghost wf0 = self.writer;
        proof {
            s0.lemma_records_len(idx as int, f as int);
        }
        match self.writer.finish_data_block(cg) {
            Ok(()) => {},
            Err(e) => {
                return Err(e);
            },
        }
        proof {
            self.writer.lemma_extends_trans(&wf0, &w0);
            self.writer.lemma_keeps_trans(&wf0, &w0, cg);
            let cgs = self.channel_groups@;
            let dblk = BlockId::DataBlock(kind_count(w0.table(), 11) as usize);
            let pdt = (w0.bytes().len() + crate::writer::align_pad(w0.bytes().len() as int)) as u64;
            assert(s0.groups_laid_out(s0.channel_groups@, s0.writer));
            assert forall|k: int| 0 <= k < cgs.len() implies w0.has_group(#[trigger] cgs[k].1)
                && wf0.group_data_group(cgs[k].1) == w0.group_data_group(cgs[k].1)
                && self.writer.group_data_group(cgs[k].1) == w0.group_data_group(cgs[k].1) by {
                assert(s0.channel_groups@[k] == cgs[k]);
                assert(w0.has_group(cgs[k].1));
                if cgs[k].1 != cg {
                    assert(wf0.group_layout(cgs[k].1) == w0.group_layout(cgs[k].1));
                    assert(self.writer.group_layout(cgs[k].1) == w0.group_layout(cgs[k].1));
                }
            }
            lemma_groups_below_kept(cgs, wf0, w0, bound, dblk, pdt);
            lemma_groups_below_kept(cgs, self.writer, w0, bound, dblk, pdt);
            let o = OpenDataBlock { record_count: f as u64, ..o1 };
            let dgp = wf0.position_of(wf0.group_data_group(cg))->0;
            let cgp = wf0.position_of(cg)->0;
            let b = wf0.bytes();
            let recs = s0.buffer_records(idx as int);
            let len = recs.len() as int;
            assert(s0.records_up_to(idx as int, f as int) == recs);
            wf0.lemma_group_blocks(cg);
            lemma_finished_keeps(b, o, dgp, cgp);
            let p = o1.pos + 24;
            assert forall|j: int| 0 <= j < len implies self.writer.bytes()[p + j] == recs[j] by {
                assert(b[p + j] == recs[j]);
            }
            assert(self.writer.bytes().subrange(p, p + len) =~= recs);
            assert(holds_bytes(self.writer.bytes(), w0.bytes().len() as int, recs));
            assert forall|j: int| bound <= j < w0.bytes().len() implies #[trigger] self.writer.bytes()[j] == w0.bytes()[j] by {
                assert(b[j] == w1.bytes()[j]);
                assert(w1.bytes()[j] == w0.bytes()[j]);
            }
            self.lemma_writer_kept(&s0, cg);
        }
        Ok(())
    }

    /// Channel groups keep their layouts across writes of data.
    proof fn lemma_writer_kept(&self, o: &Self, cg: BlockId)
        requires
            o.wf(),
            o.initialized,
            self.wf_core(),
            self.initialized == o.initialized,
            self.buffers == o.buffers,
            self.config == o.config,
            self.channel_groups == o.channel_groups,
            self.writer.extends(&o.writer),
            self.writer.keeps_other_groups(&o.writer, cg),
            self.writer.group_layout(cg) == o.writer.group_layout(cg),
            self.writer.group_channel_names(cg) == o.writer.group_channel_names(cg),
            self.writer.group_names_map() == o.writer.group_names_map(),
            self.writer.open_block(cg) is None,
        ensures
            self.wf(),
    {
        assert forall|k: int| 0 <= k < self.channel_groups@.len() implies self.writer.open_block(
            #[trigger] self.channel_groups@[k].1,
        ) is None by {
            let c = self.channel_groups@[k].1;
            assert(o.channel_groups@[k] == self.channel_groups@[k]);
            assert(o.writer.has_group(c));
            assert(o.writer.open_block(c) is None);
            if c != cg {
                assert(self.writer.group_layout(c) == o.writer.group_layout(c));
            }
        }
        assert forall|k: int| 0 <= k < self.channel_groups@.len() implies (#[trigger] self.channel_groups@[k]).0
            == self.buffers@[k].id && self.writer.has_group(self.channel_groups@[k].1) && self.writer.group_layout(
            self.channel_groups@[k].1,
        ) == dbc_layout(self.buffers@[k].signals@, self.config.store_raw_values) && self.writer.group_channel_names(
            self.channel_groups@[k].1,
        ) == dbc_channel_names(self.buffers@[k].id, self.buffers@[k].signals@) by {
            let c = self.channel_groups@[k].1;
            assert(o.channel_groups@[k] == self.channel_groups@[k]);
            assert(o.writer.has_group(c));
            if c != cg {
                assert(self.writer.group_layout(c) == o.writer.group_layout(c));
            }
        }
    }

    /// The values of the record of frame `f` of the message at position
    /// `idx`.
    fn record_values(&self, idx: usize, f: usize) -> (r: Vec<DecodedValue>)
        requires
            self.wf_core(),
            idx < self.buffers@.len(),
            f < self.buffers@[idx as int].timestamps@.len(),
        ensures
            r@ == message_record(self.buffers@[idx as int].timestamps@[f as int], self.config.store_raw_values,
                self.buffers@[idx as int].signals@, raw_columns(self.buffers@[idx as int]),
                physical_columns(self.buffers@[idx as int]), f as int),
    {
        let b = &self.buffers[idx];
        let mut values: Vec<DecodedValue> = Vec::new();
        values.push(DecodedValue::UnsignedInteger(b.timestamps[f]));
        let ghost raws = raw_columns(*b);
        let ghost phys = physical_columns(*b);
        let ghost head = values@;
        let n = b.signals.len();
        let mut s: usize = 0;
        while s < n
            invariant
                n == b.signals@.len(),
                b.wf(),
                s <= n,
                raws == raw_columns(*b),
                phys == physical_columns(*b),
                head == seq![DecodedValue::UnsignedInteger(b.timestamps@[f as int])],
                values@ == head + signal_values(self.config.store_raw_values, b.signals@, raws, phys, f as int, s as int),
            decreases n - s,
        {
            if self.config.store_raw_values {
                if f < b.raw_values[s].len() {
                    let raw = b.raw_values[s][f];
                    if b.signals[s].unsigned {
                        values.push(DecodedValue::UnsignedInteger(raw as u64));
                    } else {
                        values.push(DecodedValue::SignedInteger(raw));
                    }
                }
            } else {
                if f < b.physical_values[s].len() {
                    values.push(DecodedValue::Float(b.physical_values[s][f]));
                }
            }
            s = s + 1;
            proof {
                assert(values@ =~= head + signal_values(self.config.store_raw_values, b.signals@, raws, phys, f as int, s as int));
            }
        }
        values
    }
}

/// A record has the size asked for.
proof fn lemma_encode_len(layout: Seq<ChannelLayout>, values: Seq<DecodedValue>, rid: int, size: nat)
    ensures
        encode_record(layout, values, rid, size).len() == size,
    decreases layout.len(),
{
    if layout.len() > 0 {
        lemma_encode_len(layout.drop_last(), values, rid, size);
    }
}

/// Whether the image `b` holds `bytes` somewhere at or after `from`.
pub open spec fn holds_bytes(b: Seq<u8>, from: int, bytes: Seq<u8>) -> bool {
    exists|p: int| 0 <= p && from <= p && p + bytes.len() <= b.len() && #[trigger] b.subrange(p, p + bytes.len()) == bytes
}

/// Bytes held in a part of the image that a later image keeps are held
/// there too.
pub proof fn lemma_holds_bytes_kept(b: Seq<u8>, b2: Seq<u8>, from: int, bytes: Seq<u8>)
    requires
        holds_bytes(b, from, bytes),
        b2.len() >= b.len(),
        forall|j: int| from <= j < b.len() ==> #[trigger] b2[j] == b[j],
    ensures
        holds_bytes(b2, from, bytes),
{
    let p = choose|p: int| 0 <= p && from <= p && p + bytes.len() <= b.len() && #[trigger] b.subrange(p, p + bytes.len()) == bytes;
    assert forall|j: int| 0 <= j < bytes.len() implies #[trigger] b2.subrange(p, p + bytes.len())[j] == b.subrange(p, p + bytes.len())[j] by {
        assert(b2[p + j] == b[p + j]);
    }
    assert(b2.subrange(p, p + bytes.len()) =~= b.subrange(p, p + bytes.len()));
}

/// Bytes held at or after `from` are held at or after any earlier point.
pub proof fn lemma_holds_bytes_from(b: Seq<u8>, from: int, to: int, bytes: Seq<u8>)
    requires
        holds_bytes(b, from, bytes),
        to <= from,
    ensures
        holds_bytes(b, to, bytes),
{
    let p = choose|p: int| 0 <= p && from <= p && p + bytes.len() <= b.len() && #[trigger] b.subrange(p, p + bytes.len()) == bytes;
    assert(b.subrange(p, p + bytes.len()) == bytes);
}

/// The values the first `s` signals add to the record of frame `f`: per
/// signal with a value buffered for the frame, the raw value as an
/// unsigned or signed integer, or the physical value.
pub open spec fn signal_values(
    raw: bool,
    signals: Seq<SignalInfo>,
    raws: Seq<Seq<i64>>,
    phys: Seq<Seq<u64>>,
    f: int,
    s: int,
) -> Seq<DecodedValue>
    decreases s,
{
    if s <= 0 {
        Seq::empty()
    } else {
        let prev = signal_values(raw, signals, raws, phys, f, s - 1);
        let i = s - 1;
        if raw {
            if f < raws[i].len() {
                prev.push(
                    if signals[i].unsigned {
                        DecodedValue::UnsignedInteger(raws[i][f] as u64)
                    } else {
                        DecodedValue::SignedInteger(raws[i][f])
                    },
                )
            } else {
                prev
            }
        } else if f < phys[i].len() {
            prev.push(DecodedValue::Float(phys[i][f]))
        } else {
            prev
        }
    }
}

/// The values of the record of a frame with timestamp `ts`: the
/// timestamp, then the signals' values.
pub open spec fn message_record(
    ts: u64,
    raw: bool,
    signals: Seq<SignalInfo>,
    raws: Seq<Seq<i64>>,
    phys: Seq<Seq<u64>>,
    f: int,
) -> Seq<DecodedValue> {
    seq![DecodedValue::UnsignedInteger(ts)] + signal_values(raw, signals, raws, phys, f, signals.len() as int)
}

impl DbcMdfLogger {
    /// Writes the buffered frames of every message to the image, first
    /// writing the MDF structure if it is not there yet, then empties the
    /// buffers. On failure nothing is emptied. This fails exactly when the
    /// structure is still to be written and a text is too long to be
    /// written (see [`DbcMdfLogger::structure_fits`]), or when the records
    /// of a message with frames cannot be addressed (see
    /// [`DbcMdfLogger::data_fits`]).
    pub fn flush(&mut self) -> (r: Result<()>)
        requires
            old(self).wf(),
        ensures
            final(self).wf(),
            final(self).ids() == old(self).ids(),
            final(self).spec_config() == old(self).spec_config(),
            forall|x: u32| #[trigger] final(self).signals(x) == old(self).signals(x),
            r is Ok ==> final(self).spec_initialized(),
            r is Ok <==> (old(self).spec_initialized() || old(self).structure_fits()) && old(self).data_fits(),
            r is Ok ==> forall|x: u32|
                #[trigger] final(self).timestamps(x).len() == 0 && forall|i: int|
                    0 <= i < final(self).signals(x).len() ==> (#[trigger] final(self).raw_values(x, i)).len() == 0
                        && final(self).physical_values(x, i).len() == 0,
            r is Err ==> forall|x: u32, i: int|
                #[trigger] final(self).raw_values(x, i) == old(self).raw_values(x, i) && final(self).physical_values(x, i)
                    == old(self).physical_values(x, i) && final(self).timestamps(x) == old(self).timestamps(x),
            r is Ok ==> forall|x: u32|
                old(self).timestamps(x).len() > 0 ==> #[trigger] holds_bytes(final(self).image(), 0, old(self).message_records(x)),
    {
        let ghost s0 = *self;
        if !self.initialized {
            match self.initialize_mdf() {
                Ok(()) => {},
                Err(e) => {
                    proof {
                        self.lemma_same_buffers(&s0);
                    }
                    return Err(e);
                },
            }
        }
        let ghost si = *self;
        let ghost bound = self.writer.bytes().len() as int;
        proof {
            assert forall|k: int| 0 <= k < self.channel_groups@.len() implies self.writer.position_of(
                #[trigger] self.channel_groups@[k].1,
            ) is Some && self.writer.position_of(self.channel_groups@[k].1)->0 + 104 <= bound
                && self.writer.position_of(self.writer.group_data_group(self.channel_groups@[k].1)) is Some
                && self.writer.position_of(self.writer.group_data_group(self.channel_groups@[k].1))->0 + 64
                <= bound by {
                self.writer.lemma_group_blocks(self.channel_groups@[k].1);
            }
        }
        let mut idx: usize = 0;
        while idx < self.buffers.len()
            invariant
                self.wf(),
                self.initialized,
                idx <= self.buffers@.len(),
                self.buffers == s0.buffers,
                self.config == s0.config,
                s0 == *old(self),
                si.buffers == s0.buffers,
                si.config == s0.config,
                self.channel_groups == si.channel_groups,
                groups_below_in(self.channel_groups@, self.writer, bound),
                bound <= self.writer.bytes().len(),
                forall|k: int| 0 <= k < idx ==> #[trigger] si.flushed(self.writer.bytes(), bound, k),
                forall|k: int|
                    0 <= k < idx ==> (#[trigger] s0.buffers@[k]).timestamps@.len() == 0 || layout_fits(
                        s0.buffers@[k].signals@,
                        s0.config.store_raw_values,
                    ),
                !s0.initialized ==> s0.structure_fits(),
            decreases self.buffers@.len() - idx,
        {
            let ghost sm = *self;
            match self.write_message_data(idx, Ghost(bound)) {
                Ok(()) => {},
                Err(e) => {
                    proof {
                        self.lemma_same_buffers(&s0);
                        assert(!(s0.buffers@[idx as int].timestamps@.len() == 0 || layout_fits(
                            s0.buffers@[idx as int].signals@,
                            s0.config.store_raw_values,
                        )));
                    }
                    return Err(e);
                },
            }
            proof {
                assert forall|k: int| 0 <= k < idx + 1 implies #[trigger] si.flushed(self.writer.bytes(), bound, k) by {
                    if si.buffers@[k].timestamps@.len() > 0 {
                        si.lemma_records_same(&sm, k);
                        if k < idx {
                            assert(si.flushed(sm.writer.bytes(), bound, k));
                            lemma_holds_bytes_kept(sm.writer.bytes(), self.writer.bytes(), bound, si.buffer_records(k));
                        } else {
                            lemma_holds_bytes_from(self.writer.bytes(), sm.writer.bytes().len() as int, bound, si.buffer_records(k));
                        }
                    }
                }
            }
            idx = idx + 1;
        }
        let ghost s1 = *self;
        let mut idx: usize = 0;
        while idx < self.buffers.len()
            invariant
                self.writer == s1.writer,
                self.config == s1.config,
                self.channel_groups == s1.channel_groups,
                self.initialized == s1.initialized,
                self.buffers@.len() == s1.buffers@.len(),
                idx <= self.buffers@.len(),
                forall|k: int|
                    0 <= k < self.buffers@.len() ==> (#[trigger] self.buffers@[k]).id == s1.buffers@[k].id
                        && self.buffers@[k].signals == s1.buffers@[k].signals && self.buffers@[k].name == s1.buffers@[k].name
                        && self.buffers@[k].wf(),
                forall|k: int| 0 <= k < idx ==> (#[trigger] self.buffers@[k]).cleared(),
            decreases self.buffers@.len() - idx,
        {
            let ghost sb = *self;
            self.buffers[idx].timestamps.clear();
            let n = self.buffers[idx].signals.len();
            let mut i: usize = 0;
            while i < n
                invariant
                    idx < self.buffers@.len(),
                    self.writer == s1.writer,
                    self.config == s1.config,
                    self.channel_groups == s1.channel_groups,
                    self.initialized == s1.initialized,
                    self.buffers@.len() == sb.buffers@.len(),
                    forall|k: int| 0 <= k < self.buffers@.len() && k != idx ==> #[trigger] self.buffers@[k] == sb.buffers@[k],
                    self.buffers@[idx as int].id == sb.buffers@[idx as int].id,
                    self.buffers@[idx as int].signals == sb.buffers@[idx as int].signals,
                    self.buffers@[idx as int].name == sb.buffers@[idx as int].name,
                    self.buffers@[idx as int].raw_values@.len() == n,
                    self.buffers@[idx as int].physical_values@.len() == n,
                    n == self.buffers@[idx as int].signals@.len(),
                    i <= n,
                    self.buffers@[idx as int].timestamps@.len() == 0,
                    forall|j: int|
                        0 <= j < i ==> (#[trigger] self.buffers@[idx as int].raw_values@[j])@.len() == 0
                            && self.buffers@[idx as int].physical_values@[j]@.len() == 0,
                decreases n - i,
            {
                self.buffers[idx].raw_values[i].clear();
                self.buffers[idx].physical_values[i].clear();
                i = i + 1;
            }
            proof {
                assert(self.buffers@[idx as int].cleared());
                assert forall|k: int| 0 <= k < self.buffers@.len() implies (#[trigger] self.buffers@[k]).id == s1.buffers@[k].id
                    && self.buffers@[k].signals == s1.buffers@[k].signals && self.buffers@[k].name == s1.buffers@[k].name
                    && self.buffers@[k].wf() by {
                    if k != idx {
                        assert(self.buffers@[k] == sb.buffers@[k]);
                    }
                }
                assert forall|k: int| 0 <= k < idx + 1 implies (#[trigger] self.buffers@[k]).cleared() by {
                    if k != idx {
                        assert(self.buffers@[k] == sb.buffers@[k]);
                    }
                }
            }
            idx = idx + 1;
        }
        proof {
            assert(self.ids() =~= s0.ids());
            assert forall|a: int, b: int| 0 <= a < b < self.buffers@.len() implies (#[trigger] self.buffers@[a]).id
                < (#[trigger] self.buffers@[b]).id by {
                assert(s0.buffers@[a].id < s0.buffers@[b].id);
            }
            assert forall|x: u32| #[trigger] self.signals(x) == s0.signals(x) by {
                if s0.ids().contains(x) {
                    let j = choose|j: int| 0 <= j < s0.ids().len() && s0.ids()[j] == x;
                    s0.lemma_slot(j);
                    self.lemma_slot(j);
                }
            }
            assert forall|x: u32| #[trigger] self.timestamps(x).len() == 0 && forall|i: int|
                0 <= i < self.signals(x).len() ==> (#[trigger] self.raw_values(x, i)).len() == 0
                    && self.physical_values(x, i).len() == 0 by {
                if self.ids().contains(x) {
                    let j = choose|j: int| 0 <= j < self.ids().len() && self.ids()[j] == x;
                    self.lemma_slot(j);
                }
            }
            assert forall|x: u32| s0.timestamps(x).len() > 0 implies #[trigger] holds_bytes(self.image(), 0, s0.message_records(x)) by {
                assert(s0.ids().contains(x));
                let j = choose|j: int| 0 <= j < s0.ids().len() && s0.ids()[j] == x;
                s0.lemma_slot(j);
                assert(si.flushed(s1.writer.bytes(), bound, j));
                si.lemma_records_same(&s0, j);
                lemma_holds_bytes_from(s1.writer.bytes(), bound, 0, si.buffer_records(j));
            }
        }
        Ok(())
    }

    /// Whether the records of the frames buffered at position `k`, if
    /// any, are held in `b` at or after `from`.
    closed spec fn flushed(&self, b: Seq<u8>, from: int, k: int) -> bool {
        self.buffers@[k].timestamps@.len() > 0 ==> holds_bytes(b, from, self.buffer_records(k))
    }

    /// Whether the buffered frames can be written: for each message with
    /// frames, the records of its channel group can be addressed (see
    /// [`layout_fits`]).
    pub closed spec fn data_fits(&self) -> bool {
        forall|k: int|
            0 <= k < self.buffers@.len() ==> (#[trigger] self.buffers@[k]).timestamps@.len() == 0 || layout_fits(
                self.buffers@[k].signals@,
                self.config.store_raw_values,
            )
    }

    /// Whether the MDF structure can be written for every logged message:
    /// the names and senders of the messages, and the names, units, value
    /// descriptions and conversions of their signals, are short enough (see
    /// [`signal_fits`]).
    pub closed spec fn structure_fits(&self) -> bool {
        forall|k: int| 0 <= k < self.buffers@.len() ==> Self::message_fits(#[trigger] self.buffers@[k], self.config)
    }

    /// The MDF image written so far.
    pub closed spec fn image(&self) -> Seq<u8> {
        self.writer.bytes()
    }

    proof fn lemma_same_buffers(&self, o: &Self)
        requires
            self.buffers == o.buffers,
        ensures
            self.ids() == o.ids(),
            forall|x: u32| #[trigger] self.signals(x) == o.signals(x),
            forall|x: u32, i: int|
                #[trigger] self.raw_values(x, i) == o.raw_values(x, i) && self.physical_values(x, i)
                    == o.physical_values(x, i) && self.timestamps(x) == o.timestamps(x),
    {
        assert(self.ids() =~= o.ids());
    }

    /// Flushes the buffered frames and hands out the finished MDF image,
    /// which holds the records of the frames buffered for each message.
    /// It fails as [`DbcMdfLogger::flush`] does.
    pub fn finalize(self) -> (r: Result<Vec<u8>>)
        requires
            self.wf(),
        ensures
            r is Ok <==> (self.spec_initialized() || self.structure_fits()) && self.data_fits(),
            r matches Ok(b) ==> forall|x: u32|
                self.timestamps(x).len() > 0 ==> #[trigger] holds_bytes(b@, 0, self.message_records(x)),
    {
        let mut l = self;
        match l.flush() {
            Ok(()) => {},
            Err(e) => {
                return Err(e);
            },
        }
        let r = l.writer.finalize();
        proof {
            assert(r matches Ok(b) && b@ == l.image());
        }
        r
    }
}

} // verus!
