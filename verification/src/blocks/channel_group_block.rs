//! The channel group block (`##CG`): the record layout shared by a set of
//! channels.
use crate::blocks::common::{
    lemma_header_prefix, lemma_le_roundtrips, push_u16_le, push_u32_le, push_u64_le, read_u16_at,
    read_u32_at, read_u64_at, u16_at, u32_at, u64_at, BlockHeader, BlockParse,
};
use crate::error::{Error, Result};
use crate::text::{concat3, decimal_string, lossy_utf8, str_eq};
use vstd::bytes::*;
use vstd::prelude::*;
use vstd::string::StringExecFns;

verus! {

/// The identifier `##CG`.
pub open spec fn cg_id() -> Seq<char> {
    seq!['#', '#', 'C', 'G']
}

/// Offset of the link to the first channel within a channel group block.
pub const CG_FIRST_CH_LINK: u64 = 32;

/// Offset of the link to the acquisition name within a channel group block.
pub const CG_ACQ_NAME_LINK: u64 = 40;

/// Offset of the link to the acquisition source within a channel group block.
pub const CG_ACQ_SOURCE_LINK: u64 = 48;

/// Offset of the cycle (record) count within a channel group block.
pub const CG_CYCLES_OFFSET: u64 = 80;

/// Offset of the record data size within a channel group block.
pub const CG_DATA_BYTES_OFFSET: u64 = 96;

/// The MDF channel group block (104 bytes).
pub struct ChannelGroupBlock {
    pub header: BlockHeader,
    pub next_cg_addr: u64,
    pub first_ch_addr: u64,
    pub acq_name_addr: u64,
    pub acq_source_addr: u64,
    pub first_sample_reduction_addr: u64,
    pub comment_addr: u64,
    pub record_id: u64,
    pub cycles_nr: u64,
    pub flags: u16,
    pub path_separator: u16,
    pub reserved1: u32,
    pub samples_byte_nr: u32,
    pub invalidation_bytes_nr: u32,
}

impl ChannelGroupBlock {
    /// The 104 bytes that encode this block.
    pub open spec fn spec_bytes(&self) -> Seq<u8> {
        self.header.spec_bytes() + spec_u64_to_le_bytes(self.next_cg_addr) + spec_u64_to_le_bytes(
            self.first_ch_addr,
        ) + spec_u64_to_le_bytes(self.acq_name_addr) + spec_u64_to_le_bytes(self.acq_source_addr)
            + spec_u64_to_le_bytes(self.first_sample_reduction_addr) + spec_u64_to_le_bytes(
            self.comment_addr,
        ) + spec_u64_to_le_bytes(self.record_id) + spec_u64_to_le_bytes(self.cycles_nr)
            + spec_u16_to_le_bytes(self.flags) + spec_u16_to_le_bytes(self.path_separator)
            + spec_u32_to_le_bytes(self.reserved1) + spec_u32_to_le_bytes(self.samples_byte_nr)
            + spec_u32_to_le_bytes(self.invalidation_bytes_nr)
    }

    /// Whether this block is what `from_bytes` reads from `b`.
    pub open spec fn parsed_from(&self, b: Seq<u8>) -> bool {
        &&& b.len() >= 104
        &&& self.header.parsed_from(b)
        &&& self.next_cg_addr == u64_at(b, 24)
        &&& self.first_ch_addr == u64_at(b, 32)
        &&& self.acq_name_addr == u64_at(b, 40)
        &&& self.acq_source_addr == u64_at(b, 48)
        &&& self.first_sample_reduction_addr == u64_at(b, 56)
        &&& self.comment_addr == u64_at(b, 64)
        &&& self.record_id == u64_at(b, 72)
        &&& self.cycles_nr == u64_at(b, 80)
        &&& self.flags == u16_at(b, 88)
        &&& self.path_separator == u16_at(b, 90)
        &&& self.reserved1 == u32_at(b, 92)
        &&& self.samples_byte_nr == u32_at(b, 96)
        &&& self.invalidation_bytes_nr == u32_at(b, 100)
    }

    /// Law: the link and field offsets the writer patches are those the
    /// parser reads: first channel, name, source, record count and data
    /// bytes.
    pub proof fn lemma_link_offsets(&self, b: Seq<u8>)
        requires
            self.parsed_from(b),
        ensures
            self.first_ch_addr == u64_at(b, CG_FIRST_CH_LINK as int),
            self.acq_name_addr == u64_at(b, CG_ACQ_NAME_LINK as int),
            self.acq_source_addr == u64_at(b, CG_ACQ_SOURCE_LINK as int),
            self.cycles_nr == u64_at(b, CG_CYCLES_OFFSET as int),
            self.samples_byte_nr == u32_at(b, CG_DATA_BYTES_OFFSET as int),
    {
    }

    /// Whether the block may be serialized: identifier `##CG` and length 104.
    pub open spec fn serializable(&self) -> bool {
        self.header.id@ == cg_id() && self.header.block_len == 104
    }

    /// Serializes the block. Fails with [`Error::BlockSerializationError`]
    /// exactly when the identifier is not `##CG` or the length is not 104.
    pub fn to_bytes(&self) -> (r: Result<Vec<u8>>)
        ensures
            r is Ok <==> self.serializable(),
            r matches Ok(b) ==> b@ == self.spec_bytes() && b@.len() == 104,
            r matches Err(e) ==> e is BlockSerializationError,
    {
        if !str_eq(self.header.id.as_str(), ChannelGroupBlock::block_id()) {
            return Err(
                Error::BlockSerializationError(
                    concat3(
                        "ChannelGroupBlock must have ID '##CG', found '",
                        self.header.id.as_str(),
                        "'",
                    ),
                ),
            );
        }
        if self.header.block_len != 104 {
            let n = decimal_string(self.header.block_len);
            return Err(
                Error::BlockSerializationError(
                    concat3("ChannelGroupBlock must have block_len=104, found ", n.as_str(), ""),
                ),
            );
        }
        let mut buffer: Vec<u8> = match self.header.to_bytes() {
            Ok(b) => b,
            Err(e) => {
                return Err(e);
            },
        };
        push_u64_le(&mut buffer, self.next_cg_addr);
        push_u64_le(&mut buffer, self.first_ch_addr);
        push_u64_le(&mut buffer, self.acq_name_addr);
        push_u64_le(&mut buffer, self.acq_source_addr);
        push_u64_le(&mut buffer, self.first_sample_reduction_addr);
        push_u64_le(&mut buffer, self.comment_addr);
        push_u64_le(&mut buffer, self.record_id);
        push_u64_le(&mut buffer, self.cycles_nr);
        push_u16_le(&mut buffer, self.flags);
        push_u16_le(&mut buffer, self.path_separator);
        push_u32_le(&mut buffer, self.reserved1);
        push_u32_le(&mut buffer, self.samples_byte_nr);
        push_u32_le(&mut buffer, self.invalidation_bytes_nr);
        proof {
            lemma_le_roundtrips();
            assert(buffer@ =~= self.spec_bytes());
        }
        Ok(buffer)
    }

    /// An empty channel group: no links, no records, no record data.
    pub fn default() -> (r: Self)
        ensures
            r.serializable(),
            r.header.reserved0 == 0 && r.header.links_nr == 6,
            r.next_cg_addr == 0 && r.first_ch_addr == 0 && r.acq_name_addr == 0,
            r.acq_source_addr == 0 && r.first_sample_reduction_addr == 0 && r.comment_addr == 0,
            r.record_id == 0 && r.cycles_nr == 0 && r.flags == 0 && r.path_separator == 0,
            r.reserved1 == 0 && r.samples_byte_nr == 0 && r.invalidation_bytes_nr == 0,
    {
        ChannelGroupBlock {
            header: BlockHeader {
                id: String::from_str(ChannelGroupBlock::block_id()),
                reserved0: 0,
                block_len: 104,
                links_nr: 6,
            },
            next_cg_addr: 0,
            first_ch_addr: 0,
            acq_name_addr: 0,
            acq_source_addr: 0,
            first_sample_reduction_addr: 0,
            comment_addr: 0,
            record_id: 0,
            cycles_nr: 0,
            flags: 0,
            path_separator: 0,
            reserved1: 0,
            samples_byte_nr: 0,
            invalidation_bytes_nr: 0,
        }
    }
}

impl BlockParse for ChannelGroupBlock {
    open spec fn spec_id() -> Seq<char> {
        cg_id()
    }

    fn block_id() -> (r: &'static str) {
        proof {
            reveal_strlit("##CG");
        }
        "##CG"
    }

    /// Parses a channel group block; fails with [`Error::BlockIDError`]
    /// when the identifier is not `##CG` and with [`Error::TooShortBuffer`]
    /// when fewer than 104 bytes are given.
    fn from_bytes(bytes: &[u8]) -> (r: Result<Self>)
        ensures
            bytes@.len() >= 24 ==> (r is Ok <==> lossy_utf8(bytes@.subrange(0, 4)) == cg_id()
                && bytes@.len() >= 104),
            r matches Ok(cg) ==> cg.parsed_from(bytes@),
            bytes@.len() >= 24 && lossy_utf8(bytes@.subrange(0, 4)) != cg_id() ==> (r matches Err(
                e,
            ) && e is BlockIDError),
            bytes@.len() >= 24 && lossy_utf8(bytes@.subrange(0, 4)) == cg_id() && bytes@.len()
                < 104 ==> (r matches Err(e) && e is TooShortBuffer),
            bytes@.len() < 24 ==> (r matches Err(e) && e is TooShortBuffer),
    {
        if bytes.len() < 24 {
            return Err(Error::TooShortBuffer {
                actual: bytes.len(),
                expected: 24,
                file: "blocks/channel_group_block.rs",
                line: 0,
            });
        }
        let header = match Self::parse_header(bytes) {
            Ok(h) => h,
            Err(e) => {
                return Err(e);
            },
        };
        if bytes.len() < 104 {
            return Err(Error::TooShortBuffer {
                actual: bytes.len(),
                expected: 104,
                file: "blocks/channel_group_block.rs",
                line: 0,
            });
        }
        Ok(ChannelGroupBlock {
            header,
            next_cg_addr: read_u64_at(bytes, 24),
            first_ch_addr: read_u64_at(bytes, 32),
            acq_name_addr: read_u64_at(bytes, 40),
            acq_source_addr: read_u64_at(bytes, 48),
            first_sample_reduction_addr: read_u64_at(bytes, 56),
            comment_addr: read_u64_at(bytes, 64),
            record_id: read_u64_at(bytes, 72),
            cycles_nr: read_u64_at(bytes, 80),
            flags: read_u16_at(bytes, 88),
            path_separator: read_u16_at(bytes, 90),
            reserved1: read_u32_at(bytes, 92),
            samples_byte_nr: read_u32_at(bytes, 96),
            invalidation_bytes_nr: read_u32_at(bytes, 100),
        })
    }
}

/// Law: a serializable channel group block is read back unchanged from its
/// serialization.
pub proof fn lemma_channel_group_roundtrip(cg: ChannelGroupBlock)
    requires
        cg.serializable(),
    ensures
        cg.parsed_from(cg.spec_bytes()),
        lossy_utf8(cg.spec_bytes().subrange(0, 4)) == cg_id(),
{
    let b = cg.spec_bytes();
    lemma_le_roundtrips();
    crate::blocks::common::lemma_ascii_id_len(cg_id());
    assert(b.subrange(0, 24) =~= cg.header.spec_bytes());
    lemma_header_prefix(cg.header, b);
    assert(b.subrange(24, 32) =~= spec_u64_to_le_bytes(cg.next_cg_addr));
    assert(b.subrange(32, 40) =~= spec_u64_to_le_bytes(cg.first_ch_addr));
    assert(b.subrange(40, 48) =~= spec_u64_to_le_bytes(cg.acq_name_addr));
    assert(b.subrange(48, 56) =~= spec_u64_to_le_bytes(cg.acq_source_addr));
    assert(b.subrange(56, 64) =~= spec_u64_to_le_bytes(cg.first_sample_reduction_addr));
    assert(b.subrange(64, 72) =~= spec_u64_to_le_bytes(cg.comment_addr));
    assert(b.subrange(72, 80) =~= spec_u64_to_le_bytes(cg.record_id));
    assert(b.subrange(80, 88) =~= spec_u64_to_le_bytes(cg.cycles_nr));
    assert(b.subrange(88, 90) =~= spec_u16_to_le_bytes(cg.flags));
    assert(b.subrange(90, 92) =~= spec_u16_to_le_bytes(cg.path_separator));
    assert(b.subrange(92, 96) =~= spec_u32_to_le_bytes(cg.reserved1));
    assert(b.subrange(96, 100) =~= spec_u32_to_le_bytes(cg.samples_byte_nr));
    assert(b.subrange(100, 104) =~= spec_u32_to_le_bytes(cg.invalidation_bytes_nr));
}

} // verus!
