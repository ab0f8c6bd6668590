//! The data group block (`##DG`): groups channel groups that share a data
//! block.
use crate::blocks::common::{
    lemma_header_prefix, lemma_le_roundtrips, push_u64_le, push_zeros, read_u64_at, u64_at, zeros,
    BlockHeader, BlockParse,
};
use crate::error::{Error, Result};
use crate::text::{concat3, decimal_string, lossy_utf8, str_eq, utf8_lossy};
use vstd::bytes::*;
use vstd::prelude::*;
use vstd::slice::slice_subrange;
use vstd::string::StringExecFns;

verus! {

/// The identifier `##DG`.
pub open spec fn dg_id() -> Seq<char> {
    seq!['#', '#', 'D', 'G']
}

/// The MDF data group block (64 bytes).
pub struct DataGroupBlock {
    pub header: BlockHeader,
    pub next_dg_addr: u64,
    pub first_cg_addr: u64,
    pub data_block_addr: u64,
    pub comment_addr: u64,
    pub record_id_len: u8,
    pub reserved1: String,
}

impl DataGroupBlock {
    /// The 64 bytes that encode this block; the reserved bytes are zero.
    pub open spec fn spec_bytes(&self) -> Seq<u8> {
        self.header.spec_bytes() + spec_u64_to_le_bytes(self.next_dg_addr) + spec_u64_to_le_bytes(
            self.first_cg_addr,
        ) + spec_u64_to_le_bytes(self.data_block_addr) + spec_u64_to_le_bytes(self.comment_addr)
            + seq![self.record_id_len] + zeros(7)
    }

    /// Whether every field but `reserved1` is what `from_bytes` reads from `b`.
    pub open spec fn fields_parsed_from(&self, b: Seq<u8>) -> bool {
        &&& b.len() >= 64
        &&& self.header.parsed_from(b)
        &&& self.next_dg_addr == u64_at(b, 24)
        &&& self.first_cg_addr == u64_at(b, 32)
        &&& self.data_block_addr == u64_at(b, 40)
        &&& self.comment_addr == u64_at(b, 48)
        &&& self.record_id_len == b[56]
    }

    /// Whether this block is what `from_bytes` reads from `b`.
    pub open spec fn parsed_from(&self, b: Seq<u8>) -> bool {
        &&& self.fields_parsed_from(b)
        &&& self.reserved1@ == lossy_utf8(b.subrange(57, 64))
    }

    /// Whether the block may be serialized: identifier `##DG` and length 64.
    pub open spec fn serializable(&self) -> bool {
        self.header.id@ == dg_id() && self.header.block_len == 64
    }

    /// Serializes the block, writing zeros for the reserved bytes. Fails
    /// with [`Error::BlockSerializationError`] exactly when the identifier is
    /// not `##DG` or the length is not 64.
    pub fn to_bytes(&self) -> (r: Result<Vec<u8>>)
        ensures
            r is Ok <==> self.serializable(),
            r matches Ok(b) ==> b@ == self.spec_bytes() && b@.len() == 64,
            r matches Err(e) ==> e is BlockSerializationError,
    {
        if !str_eq(self.header.id.as_str(), DataGroupBlock::block_id()) {
            return Err(
                Error::BlockSerializationError(
                    concat3(
                        "DataGroupBlock must have ID '##DG', found '",
                        self.header.id.as_str(),
                        "'",
                    ),
                ),
            );
        }
        if self.header.block_len != 64 {
            let n = decimal_string(self.header.block_len);
            return Err(
                Error::BlockSerializationError(
                    concat3("DataGroupBlock must have block_len=64, found ", n.as_str(), ""),
                ),
            );
        }
        let mut buffer: Vec<u8> = match self.header.to_bytes() {
            Ok(b) => b,
            Err(e) => {
                return Err(e);
            },
        };
        push_u64_le(&mut buffer, self.next_dg_addr);
        push_u64_le(&mut buffer, self.first_cg_addr);
        push_u64_le(&mut buffer, self.data_block_addr);
        push_u64_le(&mut buffer, self.comment_addr);
        buffer.push(self.record_id_len);
        push_zeros(&mut buffer, 7);
        proof {
            lemma_le_roundtrips();
            assert(buffer@ =~= self.spec_bytes());
        }
        Ok(buffer)
    }

    /// A data group with no links, no record ID and an empty reserved field.
    pub fn default() -> (r: Self)
        ensures
            r.serializable(),
            r.header.reserved0 == 0 && r.header.links_nr == 4,
            r.next_dg_addr == 0 && r.first_cg_addr == 0 && r.data_block_addr == 0,
            r.comment_addr == 0 && r.record_id_len == 0,
            r.reserved1@ == Seq::<char>::empty(),
    {
        DataGroupBlock {
            header: BlockHeader {
                id: String::from_str(DataGroupBlock::block_id()),
                reserved0: 0,
                block_len: 64,
                links_nr: 4,
            },
            next_dg_addr: 0,
            first_cg_addr: 0,
            data_block_addr: 0,
            comment_addr: 0,
            record_id_len: 0,
            reserved1: String::new(),
        }
    }
}

impl BlockParse for DataGroupBlock {
    open spec fn spec_id() -> Seq<char> {
        dg_id()
    }

    fn block_id() -> (r: &'static str) {
        proof {
            reveal_strlit("##DG");
        }
        "##DG"
    }

    /// Parses a data group block; fails with [`Error::BlockIDError`] when
    /// the identifier is not `##DG` and with [`Error::TooShortBuffer`] when
    /// fewer than 64 bytes are given.
    fn from_bytes(bytes: &[u8]) -> (r: Result<Self>)
        ensures
            bytes@.len() >= 24 ==> (r is Ok <==> lossy_utf8(bytes@.subrange(0, 4)) == dg_id()
                && bytes@.len() >= 64),
            r matches Ok(dg) ==> dg.parsed_from(bytes@),
            bytes@.len() >= 24 && lossy_utf8(bytes@.subrange(0, 4)) != dg_id() ==> (r matches Err(
                e,
            ) && e is BlockIDError),
            bytes@.len() >= 24 && lossy_utf8(bytes@.subrange(0, 4)) == dg_id() && bytes@.len()
                < 64 ==> (r matches Err(e) && e is TooShortBuffer),
            bytes@.len() < 24 ==> (r matches Err(e) && e is TooShortBuffer),
    {
        if bytes.len() < 24 {
            return Err(Error::TooShortBuffer {
                actual: bytes.len(),
                expected: 24,
                file: "blocks/data_group_block.rs",
                line: 0,
            });
        }
        let header = match Self::parse_header(bytes) {
            Ok(h) => h,
            Err(e) => {
                return Err(e);
            },
        };
        if bytes.len() < 64 {
            return Err(Error::TooShortBuffer {
                actual: bytes.len(),
                expected: 64,
                file: "blocks/data_group_block.rs",
                line: 0,
            });
        }
        Ok(DataGroupBlock {
            header,
            next_dg_addr: read_u64_at(bytes, 24),
            first_cg_addr: read_u64_at(bytes, 32),
            data_block_addr: read_u64_at(bytes, 40),
            comment_addr: read_u64_at(bytes, 48),
            record_id_len: bytes[56],
            reserved1: utf8_lossy(slice_subrange(bytes, 57, 64)),
        })
    }
}

/// Law: every field of a serializable data group but the reserved text is
/// read back unchanged from its serialization, and the reserved text reads
/// back as the decoding of seven zero bytes.
pub proof fn lemma_data_group_roundtrip(dg: DataGroupBlock)
    requires
        dg.serializable(),
    ensures
        dg.fields_parsed_from(dg.spec_bytes()),
        lossy_utf8(dg.spec_bytes().subrange(0, 4)) == dg_id(),
        dg.spec_bytes().subrange(57, 64) == zeros(7),
{
    let b = dg.spec_bytes();
    lemma_le_roundtrips();
    crate::blocks::common::lemma_ascii_id_len(dg_id());
    assert(b.subrange(0, 24) =~= dg.header.spec_bytes());
    lemma_header_prefix(dg.header, b);
    assert(b.subrange(24, 32) =~= spec_u64_to_le_bytes(dg.next_dg_addr));
    assert(b.subrange(32, 40) =~= spec_u64_to_le_bytes(dg.first_cg_addr));
    assert(b.subrange(40, 48) =~= spec_u64_to_le_bytes(dg.data_block_addr));
    assert(b.subrange(48, 56) =~= spec_u64_to_le_bytes(dg.comment_addr));
    assert(b.subrange(57, 64) =~= zeros(7));
}

} // verus!
