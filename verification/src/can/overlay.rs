//! The parts of reading a raw CAN capture back that need no DBC: finding
//! the channel groups that hold raw frames, and summarising the frames.
use crate::error::{Error, Result};
use crate::index::{IndexedChannelGroup, MdfIndex};
use crate::text::{parse_usize_chars, parse_usize_spec, str_chars, str_eq};
use vstd::prelude::*;

verus! {

/// Statistics about a raw CAN capture read with a DBC.
pub struct OverlayStatistics {
    /// Total number of CAN frames in the capture
    pub total_frames: usize,
    /// Number of distinct CAN IDs
    pub unique_can_ids: usize,
    /// Number of DBC messages that have data in this capture
    pub dbc_messages_found: usize,
    /// Total number of messages defined in the DBC
    pub dbc_messages_total: usize,
    /// Earliest timestamp in microseconds
    pub min_timestamp_us: u64,
    /// Latest timestamp in microseconds
    pub max_timestamp_us: u64,
    /// Duration of the capture in microseconds
    pub duration_us: u64,
}

/// The number of distinct values in `s`.
pub open spec fn distinct_count(s: Seq<u32>) -> nat
    decreases s.len(),
{
    if s.len() == 0 {
        0
    } else {
        distinct_count(s.drop_last()) + if s.drop_last().contains(s.last()) {
            0nat
        } else {
            1nat
        }
    }
}

/// The number of entries of `ids` that occur in `present`.
pub open spec fn count_present(ids: Seq<u32>, present: Seq<u32>) -> nat
    decreases ids.len(),
{
    if ids.len() == 0 {
        0
    } else {
        count_present(ids.drop_last(), present) + if present.contains(ids.last()) {
            1nat
        } else {
            0nat
        }
    }
}

/// The smallest of the timestamps, or 0 for none.
pub open spec fn min_time(s: Seq<(u64, u32)>) -> u64
    decreases s.len(),
{
    if s.len() == 0 {
        0
    } else if s.len() == 1 || s.last().0 < min_time(s.drop_last()) {
        s.last().0
    } else {
        min_time(s.drop_last())
    }
}

/// The largest of the timestamps, or 0 for none.
pub open spec fn max_time(s: Seq<(u64, u32)>) -> u64
    decreases s.len(),
{
    if s.len() == 0 {
        0
    } else if s.len() == 1 || s.last().0 > max_time(s.drop_last()) {
        s.last().0
    } else {
        max_time(s.drop_last())
    }
}

/// The CAN IDs of some frames.
pub open spec fn frame_ids(s: Seq<(u64, u32)>) -> Seq<u32> {
    s.map_values(|f: (u64, u32)| f.1)
}

fn contains_id(v: &Vec<u32>, id: u32) -> (r: bool)
    ensures
        r == v@.contains(id),
{
    let mut i: usize = 0;
    while i < v.len()
        invariant
            i <= v@.len(),
            forall|k: int| 0 <= k < i ==> v@[k] != id,
        decreases v@.len() - i,
    {
        if v[i] == id {
            return true;
        }
        i = i + 1;
    }
    false
}

/// Summarises a capture whose frames are given as (timestamp, CAN ID),
/// against the IDs of the messages of a DBC: the number of frames and of
/// distinct IDs, how many DBC messages have frames, the earliest and latest
/// timestamps (both 0 for no frames) and the time between them.
pub fn overlay_statistics(frames: &[(u64, u32)], dbc_ids: &[u32]) -> (r: OverlayStatistics)
    ensures
        r.total_frames == frames@.len(),
        r.unique_can_ids == distinct_count(frame_ids(frames@)),
        r.dbc_messages_found == count_present(dbc_ids@, frame_ids(frames@)),
        r.dbc_messages_total == dbc_ids@.len(),
        r.min_timestamp_us == min_time(frames@),
        r.max_timestamp_us == max_time(frames@),
        r.duration_us == max_time(frames@) - min_time(frames@),
{
    let mut seen: Vec<u32> = Vec::new();
    let mut unique: usize = 0;
    let mut min_ts: u64 = 0;
    let mut max_ts: u64 = 0;
    let mut i: usize = 0;
    while i < frames.len()
        invariant
            i <= frames@.len(),
            seen@ == frame_ids(frames@.subrange(0, i as int)),
            unique == distinct_count(seen@),
            unique <= i,
            min_ts == min_time(frames@.subrange(0, i as int)),
            max_ts == max_time(frames@.subrange(0, i as int)),
            min_ts <= max_ts,
        decreases frames@.len() - i,
    {
        let (ts, id) = frames[i];
        proof {
            let p = frames@.subrange(0, i + 1);
            assert(p.drop_last() =~= frames@.subrange(0, i as int));
            assert(frame_ids(p) =~= seen@.push(id));
            assert(frame_ids(p).drop_last() =~= seen@);
        }
        if !contains_id(&seen, id) {
            unique = unique + 1;
        }
        seen.push(id);
        if i == 0 || ts < min_ts {
            min_ts = ts;
        }
        if i == 0 || ts > max_ts {
            max_ts = ts;
        }
        i = i + 1;
    }
    proof {
        assert(frames@.subrange(0, i as int) =~= frames@);
    }
    let mut found: usize = 0;
    let mut j: usize = 0;
    while j < dbc_ids.len()
        invariant
            j <= dbc_ids@.len(),
            seen@ == frame_ids(frames@),
            found == count_present(dbc_ids@.subrange(0, j as int), seen@),
            found <= j,
        decreases dbc_ids@.len() - j,
    {
        proof {
            assert(dbc_ids@.subrange(0, j + 1).drop_last() =~= dbc_ids@.subrange(0, j as int));
        }
        if contains_id(&seen, dbc_ids[j]) {
            found = found + 1;
        }
        j = j + 1;
    }
    proof {
        assert(dbc_ids@.subrange(0, j as int) =~= dbc_ids@);
    }
    OverlayStatistics {
        total_frames: frames.len(),
        unique_can_ids: unique,
        dbc_messages_found: found,
        dbc_messages_total: dbc_ids.len(),
        min_timestamp_us: min_ts,
        max_timestamp_us: max_ts,
        duration_us: max_ts - min_ts,
    }
}

/// Where the parts of raw frames lie in a channel group: the channels of
/// the timestamp, the CAN ID, the DLC, the identifier extension (if any)
/// and the data bytes in order.
pub struct RawCanGroup {
    /// Index of the group in the index
    pub group_index: usize,
    pub timestamp_channel: usize,
    pub can_id_channel: usize,
    pub dlc_channel: usize,
    pub ide_channel: Option<usize>,
    /// The data byte channels, by data byte number
    pub data_channels: Vec<usize>,
    /// Number of data bytes available
    pub data_byte_count: usize,
}

/// The name of channel `c` of `g`, if it has one.
pub open spec fn channel_name(g: IndexedChannelGroup, c: int) -> Option<Seq<char>> {
    match g.channels@[c].name {
        Some(n) => Some(n@),
        None => None,
    }
}

/// The last channel among the first `n` of `g` named `s`.
pub open spec fn last_named(g: IndexedChannelGroup, s: Seq<char>, n: int) -> Option<int>
    decreases n,
{
    if n <= 0 || n > g.channels@.len() {
        None
    } else if channel_name(g, n - 1) == Some(s) {
        Some(n - 1)
    } else {
        last_named(g, s, n - 1)
    }
}

/// The data byte number of a name `Data_<number>`.
pub open spec fn data_number(name: Seq<char>) -> Option<usize> {
    if name.len() >= 5 && name.subrange(0, 5) == seq!['D', 'a', 't', 'a', '_'] {
        parse_usize_spec(name.subrange(5, name.len() as int))
    } else {
        None
    }
}

/// The data byte number of channel `c` of `g`, if it is a data channel.
pub open spec fn channel_data_number(g: IndexedChannelGroup, c: int) -> Option<usize> {
    match channel_name(g, c) {
        Some(n) => data_number(n),
        None => None,
    }
}

/// Whether channel `c` of `g` is the last among the first `n` with data
/// byte number `d`.
pub open spec fn last_data_channel(g: IndexedChannelGroup, d: usize, c: int, n: int) -> bool {
    &&& 0 <= c < n
    &&& channel_data_number(g, c) == Some(d)
    &&& forall|c2: int| c < c2 < n ==> channel_data_number(g, c2) != Some(d)
}

/// Whether `entries` lists, by ascending data byte number, the last
/// channel among the first `n` of `g` for every data byte number used.
pub open spec fn data_channels_of(g: IndexedChannelGroup, entries: Seq<(usize, usize)>, n: int) -> bool {
    &&& forall|k: int, k2: int| 0 <= k < k2 < entries.len() ==> #[trigger] entries[k].0 < #[trigger] entries[k2].0
    &&& forall|k: int| 0 <= k < entries.len() ==> last_data_channel(g, (#[trigger] entries[k]).0, entries[k].1 as int, n)
    &&& forall|c: int| 0 <= c < n && #[trigger] channel_data_number(g, c) is Some ==> exists|k: int|
        0 <= k < entries.len() && entries[k].0 == channel_data_number(g, c)->0
}

/// Files channel `c` with data byte number `d` into `entries`, keeping
/// them ordered by number and the later channel for a number seen before.
#[verifier::rlimit(80)]
#[verifier::spinoff_prover]
fn file_data_channel(entries: &mut Vec<(usize, usize)>, d: usize, c: usize, Ghost(g): Ghost<IndexedChannelGroup>)
    requires
        data_channels_of(g, old(entries)@, c as int),
        c < g.channels@.len(),
        channel_data_number(g, c as int) == Some(d),
    ensures
        data_channels_of(g, final(entries)@, c + 1),
{
    let ghost e0 = entries@;
    let mut i: usize = 0;
    while i < entries.len() && entries[i].0 < d
        invariant
            entries@ == e0,
            i <= entries@.len(),
            forall|k: int| 0 <= k < i ==> entries@[k].0 < d,
        decreases entries@.len() - i,
    {
        i = i + 1;
    }
    if i < entries.len() && entries[i].0 == d {
        entries.set(i, (d, c));
        proof {
            let e = entries@;
            assert forall|k: int| 0 <= k < e.len() implies last_data_channel(g, (#[trigger] e[k]).0, e[k].1 as int, c + 1) by {
                if k != i {
                    assert(e[k] == e0[k]);
                    assert(e0[k].0 != d);
                }
            }
            assert forall|c2: int| 0 <= c2 < c + 1 && #[trigger] channel_data_number(g, c2) is Some implies exists|k: int|
                0 <= k < e.len() && e[k].0 == channel_data_number(g, c2)->0 by {
                if c2 < c {
                    let k = choose|k: int| 0 <= k < e0.len() && e0[k].0 == channel_data_number(g, c2)->0;
                    assert(e[k].0 == e0[k].0);
                } else {
                    assert(e[i as int].0 == d);
                }
            }
            assert forall|k: int, k2: int| 0 <= k < k2 < e.len() implies #[trigger] e[k].0 < #[trigger] e[k2].0 by {
                assert(e[k].0 == e0[k].0);
                assert(e[k2].0 == e0[k2].0);
            }
        }
    } else {
        proof {
            assert forall|k: int| i <= k < e0.len() implies e0[k].0 > d by {
                if k > i {
                    assert(e0[i as int].0 < e0[k].0);
                }
            }
        }
        entries.insert(i, (d, c));
        proof {
            let e = entries@;
            assert(e == e0.insert(i as int, (d, c)));
            assert forall|k: int| 0 <= k < e.len() implies last_data_channel(g, (#[trigger] e[k]).0, e[k].1 as int, c + 1) by {
                if k < i {
                    assert(e[k] == e0[k]);
                } else if k > i {
                    assert(e[k] == e0[k - 1]);
                }
            }
            assert forall|c2: int| 0 <= c2 < c + 1 && #[trigger] channel_data_number(g, c2) is Some implies exists|k: int|
                0 <= k < e.len() && e[k].0 == channel_data_number(g, c2)->0 by {
                if c2 < c {
                    let k = choose|k: int| 0 <= k < e0.len() && e0[k].0 == channel_data_number(g, c2)->0;
                    if k < i {
                        assert(e[k] == e0[k]);
                    } else {
                        assert(e[k + 1] == e0[k]);
                    }
                } else {
                    assert(e[i as int].0 == d);
                }
            }
            assert forall|k: int, k2: int| 0 <= k < k2 < e.len() implies #[trigger] e[k].0 < #[trigger] e[k2].0 by {
                if k2 < i {
                    assert(e[k] == e0[k]);
                    assert(e[k2] == e0[k2]);
                } else if k < i && k2 == i {
                    assert(e[k] == e0[k]);
                } else if k < i {
                    assert(e[k] == e0[k]);
                    assert(e[k2] == e0[k2 - 1]);
                } else if k == i {
                    assert(e[k2] == e0[k2 - 1]);
                } else {
                    assert(e[k] == e0[k - 1]);
                    assert(e[k2] == e0[k2 - 1]);
                }
            }
        }
    }
}

/// Whether channel name `n` is `lit`.
fn name_eq(n: &Option<String>, lit: &str) -> (r: bool)
    ensures
        r == (n matches Some(s) && s@ == lit@),
{
    match n {
        Some(s) => str_eq(s.as_str(), lit),
        None => false,
    }
}

/// Whether `group` holds raw CAN frames, as [`detect_raw_can_group`]
/// recognises them.
pub open spec fn raw_detected(group: IndexedChannelGroup) -> bool {
    let n = group.channels@.len() as int;
    &&& last_named(group, seq!['T', 'i', 'm', 'e', 's', 't', 'a', 'm', 'p'], n) is Some
    &&& last_named(group, seq!['C', 'A', 'N', '_', 'I', 'D'], n) is Some
    &&& last_named(group, seq!['D', 'L', 'C'], n) is Some
    &&& exists|c: int| 0 <= c < n && #[trigger] channel_data_number(group, c) is Some
}

/// Whether `g` describes `group`, found at `group_index`, as
/// [`detect_raw_can_group`] does.
pub open spec fn raw_group_fields(g: RawCanGroup, group_index: usize, group: IndexedChannelGroup) -> bool {
    let n = group.channels@.len() as int;
    &&& g.group_index == group_index
    &&& Some(g.timestamp_channel as int) == last_named(group, seq!['T', 'i', 'm', 'e', 's', 't', 'a', 'm', 'p'], n)
    &&& Some(g.can_id_channel as int) == last_named(group, seq!['C', 'A', 'N', '_', 'I', 'D'], n)
    &&& Some(g.dlc_channel as int) == last_named(group, seq!['D', 'L', 'C'], n)
    &&& match g.ide_channel {
        Some(c) => last_named(group, seq!['I', 'D', 'E'], n) == Some(c as int),
        None => last_named(group, seq!['I', 'D', 'E'], n) is None,
    }
    &&& g.data_byte_count == g.data_channels@.len()
    &&& exists|entries: Seq<(usize, usize)>|
        #[trigger] data_channels_of(group, entries, n) && g.data_channels@ == entries.map_values(
            |e: (usize, usize)| e.1,
        )
}

/// Recognises a channel group of raw CAN frames by its channel names:
/// `Timestamp`, `CAN_ID` and `DLC` are required, `IDE` is optional (for
/// each the last channel so named counts), and at least one channel named
/// `Data_<n>` must exist; the data channels are listed by ascending byte
/// number `n`, the last channel counting for a number named twice.
pub fn detect_raw_can_group(group_index: usize, group: &IndexedChannelGroup) -> (r: Option<RawCanGroup>)
    ensures
        ({
            let n = group.channels@.len() as int;
            let ts = last_named(*group, seq!['T', 'i', 'm', 'e', 's', 't', 'a', 'm', 'p'], n);
            let id = last_named(*group, seq!['C', 'A', 'N', '_', 'I', 'D'], n);
            let dlc = last_named(*group, seq!['D', 'L', 'C'], n);
            let ide = last_named(*group, seq!['I', 'D', 'E'], n);
            let has_data = exists|c: int| 0 <= c < n && #[trigger] channel_data_number(*group, c) is Some;
            &&& (r is Some <==> ts is Some && id is Some && dlc is Some && has_data)
            &&& r matches Some(g) ==> {
                &&& g.group_index == group_index
                &&& Some(g.timestamp_channel as int) == ts
                &&& Some(g.can_id_channel as int) == id
                &&& Some(g.dlc_channel as int) == dlc
                &&& match g.ide_channel {
                    Some(c) => ide == Some(c as int),
                    None => ide is None,
                }
                &&& g.data_byte_count == g.data_channels@.len()
                &&& exists|entries: Seq<(usize, usize)>|
                    #[trigger] data_channels_of(*group, entries, n) && g.data_channels@ == entries.map_values(
                        |e: (usize, usize)| e.1,
                    )
            }
        }),
        r is Some <==> raw_detected(*group),
        r matches Some(g) ==> raw_group_fields(g, group_index, *group),
{
    let n = group.channels.len();
    let mut ts: Option<usize> = None;
    let mut id: Option<usize> = None;
    let mut dlc: Option<usize> = None;
    let mut ide: Option<usize> = None;
    let mut entries: Vec<(usize, usize)> = Vec::new();
    let l_ts = "Timestamp";
    let l_id = "CAN_ID";
    let l_dlc = "DLC";
    let l_ide = "IDE";
    proof {
        reveal_strlit("Timestamp");
        reveal_strlit("CAN_ID");
        reveal_strlit("DLC");
        reveal_strlit("IDE");
    }
    let mut c: usize = 0;
    while c < n
        invariant
            n == group.channels@.len(),
            c <= n,
            l_ts@ == seq!['T', 'i', 'm', 'e', 's', 't', 'a', 'm', 'p'],
            l_id@ == seq!['C', 'A', 'N', '_', 'I', 'D'],
            l_dlc@ == seq!['D', 'L', 'C'],
            l_ide@ == seq!['I', 'D', 'E'],
            ts matches Some(x) ==> last_named(*group, l_ts@, c as int) == Some(x as int),
            ts is None ==> last_named(*group, l_ts@, c as int) is None,
            id matches Some(x) ==> last_named(*group, l_id@, c as int) == Some(x as int),
            id is None ==> last_named(*group, l_id@, c as int) is None,
            dlc matches Some(x) ==> last_named(*group, l_dlc@, c as int) == Some(x as int),
            dlc is None ==> last_named(*group, l_dlc@, c as int) is None,
            ide matches Some(x) ==> last_named(*group, l_ide@, c as int) == Some(x as int),
            ide is None ==> last_named(*group, l_ide@, c as int) is None,
            data_channels_of(*group, entries@, c as int),
        decreases n - c,
    {
        let name = &group.channels[c].name;
        if name_eq(name, l_ts) {
            ts = Some(c);
        } else if name_eq(name, l_id) {
            id = Some(c);
        } else if name_eq(name, l_dlc) {
            dlc = Some(c);
        } else if name_eq(name, l_ide) {
            ide = Some(c);
        }
        let number: Option<usize> = match name {
            Some(s) => {
                let chars = str_chars(s.as_str());
                if chars.len() >= 5 && chars[0] == 'D' && chars[1] == 'a' && chars[2] == 't' && chars[3] == 'a'
                    && chars[4] == '_' {
                    proof {
                        assert(chars@.subrange(0, 5) =~= seq!['D', 'a', 't', 'a', '_']);
                    }
                    parse_usize_chars(&chars, 5, chars.len())
                } else {
                    proof {
                        if chars@.len() >= 5 {
                            assert(chars@.subrange(0, 5)[0] == chars@[0]);
                            assert(chars@.subrange(0, 5)[1] == chars@[1]);
                            assert(chars@.subrange(0, 5)[2] == chars@[2]);
                            assert(chars@.subrange(0, 5)[3] == chars@[3]);
                            assert(chars@.subrange(0, 5)[4] == chars@[4]);
                        }
                    }
                    None
                }
            },
            None => None,
        };
        proof {
            assert(number == channel_data_number(*group, c as int));
        }
        match number {
            Some(d) => {
                file_data_channel(&mut entries, d, c, Ghost(*group));
            },
            None => {
                proof {
                    let e = entries@;
                    assert forall|c2: int| 0 <= c2 < c + 1 && #[trigger] channel_data_number(*group, c2) is Some implies exists|k: int|
                        0 <= k < e.len() && e[k].0 == channel_data_number(*group, c2)->0 by {
                        assert(c2 < c);
                    }
                }
            },
        }
        c = c + 1;
    }
    let ghost has_data = exists|c: int| 0 <= c < n && #[trigger] channel_data_number(*group, c) is Some;
    proof {
        if has_data {
            let c2 = choose|c: int| 0 <= c < n && #[trigger] channel_data_number(*group, c) is Some;
            assert(entries@.len() > 0);
        } else {
            if entries@.len() > 0 {
                assert(last_data_channel(*group, entries@[0].0, entries@[0].1 as int, n as int));
            }
        }
    }
    let (t, i, d) = match (ts, id, dlc) {
        (Some(t), Some(i), Some(d)) => (t, i, d),
        _ => {
            return None;
        },
    };
    if entries.len() == 0 {
        return None;
    }
    let mut data_channels: Vec<usize> = Vec::new();
    let mut k: usize = 0;
    while k < entries.len()
        invariant
            k <= entries@.len(),
            data_channels@ == entries@.subrange(0, k as int).map_values(|e: (usize, usize)| e.1),
        decreases entries@.len() - k,
    {
        data_channels.push(entries[k].1);
        k = k + 1;
        assert(data_channels@ =~= entries@.subrange(0, k as int).map_values(|e: (usize, usize)| e.1));
    }
    assert(entries@.subrange(0, k as int) =~= entries@);
    let count = data_channels.len();
    Some(RawCanGroup {
        group_index,
        timestamp_channel: t,
        can_id_channel: i,
        dlc_channel: d,
        ide_channel: ide,
        data_channels,
        data_byte_count: count,
    })
}

/// The raw CAN groups of `index`, in group order: those that
/// [`detect_raw_can_group`] recognises. Fails with
/// [`Error::BlockSerializationError`] exactly when there is none.
pub fn raw_groups_of(index: &MdfIndex) -> (r: Result<Vec<RawCanGroup>>)
    ensures
        r is Err <==> forall|i: int|
            0 <= i < index.channel_groups@.len() ==> !raw_detected(#[trigger] index.channel_groups@[i]),
        r matches Err(e) ==> e is BlockSerializationError,
        r matches Ok(v) ==> raw_groups_listed(index.channel_groups@, v@, index.channel_groups@.len() as int),
{
    let mut out: Vec<RawCanGroup> = Vec::new();
    let mut i: usize = 0;
    while i < index.channel_groups.len()
        invariant
            i <= index.channel_groups@.len(),
            raw_groups_listed(index.channel_groups@, out@, i as int),
            out@.len() == 0 <==> forall|j: int| 0 <= j < i ==> !raw_detected(#[trigger] index.channel_groups@[j]),
        decreases index.channel_groups@.len() - i,
    {
        let ghost before = out@;
        match detect_raw_can_group(i, &index.channel_groups[i]) {
            Some(g) => {
                out.push(g);
                proof {
                    assert forall|k: int| 0 <= k < out@.len() - 1 implies (#[trigger] out@[k]) == before[k] by {}
                    assert(out@[out@.len() - 1].group_index == i);
                    assert forall|j: int| 0 <= j < i + 1 && raw_detected(#[trigger] index.channel_groups@[j]) implies exists|k: int|
                        0 <= k < out@.len() && out@[k].group_index == j by {
                        if j < i {
                            let k = choose|k: int| 0 <= k < before.len() && before[k].group_index == j;
                            assert(out@[k] == before[k]);
                        } else {
                            assert(out@[out@.len() - 1].group_index == j);
                        }
                    }
                }
            },
            None => {
                proof {
                    assert forall|j: int| 0 <= j < i + 1 && raw_detected(#[trigger] index.channel_groups@[j]) implies exists|k: int|
                        0 <= k < out@.len() && out@[k].group_index == j by {
                        if j < i {
                        } else {
                            assert(!raw_detected(index.channel_groups@[j]));
                        }
                    }
                }
            },
        }
        i = i + 1;
    }
    if out.len() == 0 {
        return Err(Error::BlockSerializationError(String::from_str("No raw CAN channel groups found in MDF file")));
    }
    Ok(out)
}

/// Whether `v` lists, in ascending group order, exactly the groups among
/// the first `n` of `groups` that hold raw CAN frames, each as
/// [`detect_raw_can_group`] describes it.
pub open spec fn raw_groups_listed(groups: Seq<IndexedChannelGroup>, v: Seq<RawCanGroup>, n: int) -> bool {
    &&& forall|k: int|
        0 <= k < v.len() ==> (#[trigger] v[k]).group_index < n && raw_detected(groups[v[k].group_index as int])
            && raw_group_fields(v[k], v[k].group_index, groups[v[k].group_index as int])
    &&& forall|a: int, b: int| 0 <= a < b < v.len() ==> (#[trigger] v[a]).group_index < (#[trigger] v[b]).group_index
    &&& forall|j: int|
        0 <= j < n && raw_detected(#[trigger] groups[j]) ==> exists|k: int| 0 <= k < v.len() && v[k].group_index == j
}

} // verus!
