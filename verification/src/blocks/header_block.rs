//! The header block (`##HD`): file-level metadata and the link to the
//! first data group.
use crate::blocks::common::{
    lemma_le_roundtrips, push_i16_le, push_u64_le, read_i16_at, read_u64_at, spec_i16_to_le_bytes,
    u16_at, u64_at, BlockHeader, BlockParse,
};
use crate::error::{Error, Result};
use crate::text::{concat3, decimal_string, lossy_utf8, str_eq};
use vstd::bytes::*;
use vstd::prelude::*;

verus! {

/// The identifier `##HD`.
pub open spec fn hd_id() -> Seq<char> {
    seq!['#', '#', 'H', 'D']
}

/// The MDF header block (104 bytes).
pub struct HeaderBlock {
    pub header: BlockHeader,
    pub first_dg_addr: u64,
    pub file_history_addr: u64,
    pub channel_tree_addr: u64,
    pub first_attachment_addr: u64,
    pub first_event_addr: u64,
    pub comment_addr: u64,
    pub abs_time: u64,
    pub tz_offset: i16,
    pub daylight_save_time: i16,
    pub time_flags: u8,
    pub time_quality: u8,
    pub flags: u8,
    pub reserved1: u8,
    pub start_angle: u64,
    pub start_distance: u64,
}

impl HeaderBlock {
    /// The 104 bytes that encode this block.
    pub open spec fn spec_bytes(&self) -> Seq<u8> {
        self.header.spec_bytes() + spec_u64_to_le_bytes(self.first_dg_addr) + spec_u64_to_le_bytes(
            self.file_history_addr,
        ) + spec_u64_to_le_bytes(self.channel_tree_addr) + spec_u64_to_le_bytes(
            self.first_attachment_addr,
        ) + spec_u64_to_le_bytes(self.first_event_addr) + spec_u64_to_le_bytes(self.comment_addr)
            + spec_u64_to_le_bytes(self.abs_time) + spec_i16_to_le_bytes(self.tz_offset)
            + spec_i16_to_le_bytes(self.daylight_save_time) + seq![
            self.time_flags,
            self.time_quality,
            self.flags,
            self.reserved1,
        ] + spec_u64_to_le_bytes(self.start_angle) + spec_u64_to_le_bytes(self.start_distance)
    }

    /// Whether this block is what `from_bytes` reads from `b`.
    pub open spec fn parsed_from(&self, b: Seq<u8>) -> bool {
        &&& b.len() >= 104
        &&& self.header.parsed_from(b)
        &&& self.first_dg_addr == u64_at(b, 24)
        &&& self.file_history_addr == u64_at(b, 32)
        &&& self.channel_tree_addr == u64_at(b, 40)
        &&& self.first_attachment_addr == u64_at(b, 48)
        &&& self.first_event_addr == u64_at(b, 56)
        &&& self.comment_addr == u64_at(b, 64)
        &&& self.abs_time == u64_at(b, 72)
        &&& self.tz_offset == u16_at(b, 80) as i16
        &&& self.daylight_save_time == u16_at(b, 82) as i16
        &&& self.time_flags == b[84]
        &&& self.time_quality == b[85]
        &&& self.flags == b[86]
        &&& self.reserved1 == b[87]
        &&& self.start_angle == u64_at(b, 88)
        &&& self.start_distance == u64_at(b, 96)
    }

    /// Whether the header may be serialized: identifier `##HD` and length 104.
    pub open spec fn serializable(&self) -> bool {
        self.header.id@ == hd_id() && self.header.block_len == 104
    }

    /// Serializes the block. Fails with [`Error::BlockSerializationError`]
    /// exactly when the header's identifier is not `##HD` or its length is
    /// not 104.
    pub fn to_bytes(&self) -> (r: Result<Vec<u8>>)
        ensures
            r is Ok <==> self.serializable(),
            r matches Ok(b) ==> b@ == self.spec_bytes() && b@.len() == 104,
            r matches Err(e) ==> e is BlockSerializationError,
    {
        if !str_eq(self.header.id.as_str(), HeaderBlock::block_id()) {
            return Err(
                Error::BlockSerializationError(
                    concat3("HeaderBlock must have ID '##HD', found '", self.header.id.as_str(), "'"),
                ),
            );
        }
        if self.header.block_len != 104 {
            let n = decimal_string(self.header.block_len);
            return Err(
                Error::BlockSerializationError(
                    concat3("HeaderBlock must have block_len=104, found ", n.as_str(), ""),
                ),
            );
        }
        let mut buffer: Vec<u8> = match self.header.to_bytes() {
            Ok(b) => b,
            Err(e) => {
                return Err(e);
            },
        };
        push_u64_le(&mut buffer, self.first_dg_addr);
        push_u64_le(&mut buffer, self.file_history_addr);
        push_u64_le(&mut buffer, self.channel_tree_addr);
        push_u64_le(&mut buffer, self.first_attachment_addr);
        push_u64_le(&mut buffer, self.first_event_addr);
        push_u64_le(&mut buffer, self.comment_addr);
        push_u64_le(&mut buffer, self.abs_time);
        push_i16_le(&mut buffer, self.tz_offset);
        push_i16_le(&mut buffer, self.daylight_save_time);
        buffer.push(self.time_flags);
        buffer.push(self.time_quality);
        buffer.push(self.flags);
        buffer.push(self.reserved1);
        push_u64_le(&mut buffer, self.start_angle);
        push_u64_le(&mut buffer, self.start_distance);
        proof {
            lemma_le_roundtrips();
            assert(buffer@ =~= self.spec_bytes());
        }
        Ok(buffer)
    }

    /// The default header: no links, `abs_time` of two hours in
    /// nanoseconds, everything else zero.
    pub fn default() -> (r: Self)
        ensures
            r.serializable(),
            r.header.reserved0 == 0 && r.header.links_nr == 6,
            r.first_dg_addr == 0 && r.file_history_addr == 0 && r.channel_tree_addr == 0,
            r.first_attachment_addr == 0 && r.first_event_addr == 0 && r.comment_addr == 0,
            r.abs_time == 7_200_000_000_000u64,
            r.tz_offset == 0 && r.daylight_save_time == 0,
            r.time_flags == 0 && r.time_quality == 0 && r.flags == 0 && r.reserved1 == 0,
            r.start_angle == 0 && r.start_distance == 0,
    {
        let id = String::from_str(HeaderBlock::block_id());
        HeaderBlock {
            header: BlockHeader { id, reserved0: 0, block_len: 104, links_nr: 6 },
            first_dg_addr: 0,
            file_history_addr: 0,
            channel_tree_addr: 0,
            first_attachment_addr: 0,
            first_event_addr: 0,
            comment_addr: 0,
            abs_time: 2 * 3600 * 1000000000,
            tz_offset: 0,
            daylight_save_time: 0,
            time_flags: 0,
            time_quality: 0,
            flags: 0,
            reserved1: 0,
            start_angle: 0,
            start_distance: 0,
        }
    }
}

impl BlockParse for HeaderBlock {
    open spec fn spec_id() -> Seq<char> {
        hd_id()
    }

    fn block_id() -> (r: &'static str) {
        proof {
            reveal_strlit("##HD");
        }
        "##HD"
    }

    /// Parses a header block. Needs at least the 24 header bytes; fails
    /// with [`Error::BlockIDError`] when the identifier is not `##HD` and
    /// with [`Error::TooShortBuffer`] when fewer than 104 bytes are given.
    fn from_bytes(bytes: &[u8]) -> (r: Result<Self>)
        ensures
            bytes@.len() >= 24 ==> (r is Ok <==> lossy_utf8(bytes@.subrange(0, 4)) == hd_id()
                && bytes@.len() >= 104),
            r matches Ok(hb) ==> hb.parsed_from(bytes@),
            bytes@.len() >= 24 && lossy_utf8(bytes@.subrange(0, 4)) != hd_id() ==> (r matches Err(
                e,
            ) && e is BlockIDError),
            bytes@.len() >= 24 && lossy_utf8(bytes@.subrange(0, 4)) == hd_id() && bytes@.len()
                < 104 ==> (r matches Err(e) && e is TooShortBuffer),
            bytes@.len() < 24 ==> (r matches Err(e) && e is TooShortBuffer),
    {
        if bytes.len() < 24 {
            return Err(Error::TooShortBuffer {
                actual: bytes.len(),
                expected: 24,
                file: "blocks/header_block.rs",
                line: 0,
            });
        }
        let header = match Self::parse_header(bytes) {
            Ok(h) => h,
            Err(e) => {
                return Err(e);
            },
        };
        if bytes.len() < 104 {
            return Err(Error::TooShortBuffer {
                actual: bytes.len(),
                expected: 104,
                file: "blocks/header_block.rs",
                line: 0,
            });
        }
        Ok(HeaderBlock {
            header,
            first_dg_addr: read_u64_at(bytes, 24),
            file_history_addr: read_u64_at(bytes, 32),
            channel_tree_addr: read_u64_at(bytes, 40),
            first_attachment_addr: read_u64_at(bytes, 48),
            first_event_addr: read_u64_at(bytes, 56),
            comment_addr: read_u64_at(bytes, 64),
            abs_time: read_u64_at(bytes, 72),
            tz_offset: read_i16_at(bytes, 80),
            daylight_save_time: read_i16_at(bytes, 82),
            time_flags: bytes[84],
            time_quality: bytes[85],
            flags: bytes[86],
            reserved1: bytes[87],
            start_angle: read_u64_at(bytes, 88),
            start_distance: read_u64_at(bytes, 96),
        })
    }
}

} // verus!

verus! {

/// Law: a serializable header block is read back unchanged from its own
/// serialization.
pub proof fn lemma_header_block_roundtrip(hb: HeaderBlock)
    requires
        hb.serializable(),
    ensures
        hb.parsed_from(hb.spec_bytes()),
        lossy_utf8(hb.spec_bytes().subrange(0, 4)) == hd_id(),
{
    let b = hb.spec_bytes();
    lemma_le_roundtrips();
    crate::blocks::common::lemma_ascii_id_len(hd_id());
    assert(b.subrange(0, 24) =~= hb.header.spec_bytes());
    crate::blocks::common::lemma_header_prefix(hb.header, b);
    assert(b.subrange(24, 32) =~= spec_u64_to_le_bytes(hb.first_dg_addr));
    assert(b.subrange(32, 40) =~= spec_u64_to_le_bytes(hb.file_history_addr));
    assert(b.subrange(40, 48) =~= spec_u64_to_le_bytes(hb.channel_tree_addr));
    assert(b.subrange(48, 56) =~= spec_u64_to_le_bytes(hb.first_attachment_addr));
    assert(b.subrange(56, 64) =~= spec_u64_to_le_bytes(hb.first_event_addr));
    assert(b.subrange(64, 72) =~= spec_u64_to_le_bytes(hb.comment_addr));
    assert(b.subrange(72, 80) =~= spec_u64_to_le_bytes(hb.abs_time));
    assert(b.subrange(80, 82) =~= spec_u16_to_le_bytes(hb.tz_offset as u16));
    assert(b.subrange(82, 84) =~= spec_u16_to_le_bytes(hb.daylight_save_time as u16));
    assert(b.subrange(88, 96) =~= spec_u64_to_le_bytes(hb.start_angle));
    assert(b.subrange(96, 104) =~= spec_u64_to_le_bytes(hb.start_distance));
    crate::blocks::common::lemma_i16_bits(hb.tz_offset);
    crate::blocks::common::lemma_i16_bits(hb.daylight_save_time);
}

} // verus!
