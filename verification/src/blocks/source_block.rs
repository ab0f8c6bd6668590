//! The source information block (`##SI`): where a channel group's data
//! came from (an ECU, a bus, a tool).
use crate::blocks::common::{u64_at, read_u64_at, BlockHeader, BlockParse};
use crate::error::{Error, Result};
use crate::text::lossy_utf8;
use vstd::prelude::*;
use vstd::slice::slice_subrange;
use vstd::string::StringExecFns;

verus! {

/// The identifier `##SI`.
pub open spec fn si_id() -> Seq<char> {
    seq!['#', '#', 'S', 'I']
}

/// The source information block.
///
/// Links: the source name (text block), a tool-specific path (text block)
/// and a comment (text or metadata block). Data: the source type
/// (0 other, 1 ECU, 2 bus, 3 I/O, 4 tool, 5 user), the bus type (0 none,
/// 1 other, 2 CAN, 3 LIN, ...) and flags (bit 0: simulated).
pub struct SourceBlock {
    pub header: BlockHeader,
    /// Link to the text block holding the source name
    pub name_addr: u64,
    /// Link to the text block holding a tool-specific path
    pub path_addr: u64,
    /// Link to the text or metadata block holding a comment
    pub comment_addr: u64,
    pub source_type: u8,
    pub bus_type: u8,
    pub flags: u8,
}

/// Link `i` of a block whose links start after its header, or zero when
/// the block has at most `i` links.
pub open spec fn source_link(b: Seq<u8>, links_nr: u64, i: int) -> u64 {
    if i < links_nr {
        u64_at(b, 24 + 8 * i)
    } else {
        0
    }
}

impl SourceBlock {
    /// Whether every field is what `from_bytes` reads from `b`: the header,
    /// up to three links, and the three data bytes after all the links.
    pub open spec fn parsed_from(&self, b: Seq<u8>) -> bool {
        let data_start = 24 + 8 * self.header.links_nr;
        &&& self.header.parsed_from(b)
        &&& self.header.id@ == si_id()
        &&& self.name_addr == source_link(b, self.header.links_nr, 0)
        &&& self.path_addr == source_link(b, self.header.links_nr, 1)
        &&& self.comment_addr == source_link(b, self.header.links_nr, 2)
        &&& self.source_type == b[data_start]
        &&& self.bus_type == b[data_start + 1]
        &&& self.flags == b[data_start + 2]
    }
}

impl BlockParse for SourceBlock {
    open spec fn spec_id() -> Seq<char> {
        si_id()
    }

    fn block_id() -> (r: &'static str) {
        proof {
            reveal_strlit("##SI");
        }
        "##SI"
    }

    /// Parses a source information block. Fails with
    /// [`Error::BlockIDError`] when the identifier is not `##SI`, and with
    /// [`Error::TooShortBuffer`] when the bytes end before the header, the
    /// links or the three data bytes after them.
    fn from_bytes(bytes: &[u8]) -> (r: Result<Self>)
        ensures
            r matches Ok(s) ==> s.parsed_from(bytes@),
            bytes@.len() >= 24 ==> (r is Ok <==> lossy_utf8(bytes@.subrange(0, 4)) == si_id()
                && bytes@.len() >= 24 + 8 * u64_at(bytes@, 16) + 3),
            bytes@.len() >= 24 && lossy_utf8(bytes@.subrange(0, 4)) != si_id() ==> (r matches Err(
                e,
            ) && e is BlockIDError),
            r matches Err(e) ==> e is BlockIDError || e is TooShortBuffer,
            bytes@.len() < 24 || (lossy_utf8(bytes@.subrange(0, 4)) == si_id() && bytes@.len() < 24 + 8 * u64_at(
                bytes@,
                16,
            ) + 3) ==> (r matches Err(e) && e is TooShortBuffer),
    {
        if bytes.len() < 24 {
            return Err(Error::TooShortBuffer {
                actual: bytes.len(),
                expected: 24,
                file: "blocks/source_block.rs",
                line: 0,
            });
        }
        let header = match Self::parse_header(bytes) {
            Ok(h) => h,
            Err(e) => {
                return Err(e);
            },
        };
        let links = header.links_nr;
        let room = (bytes.len() - 24) as u64;
        if links > room / 8 || room - links * 8 < 3 {
            let expected: usize = if links > (usize::MAX as u64 - 27) / 8 {
                usize::MAX
            } else {
                (24 + links * 8 + 3) as usize
            };
            return Err(Error::TooShortBuffer {
                actual: bytes.len(),
                expected,
                file: "blocks/source_block.rs",
                line: 0,
            });
        }
        let data_start = (24 + links * 8) as usize;
        let name_addr = if links > 0 {
            read_u64_at(bytes, 24)
        } else {
            0
        };
        let path_addr = if links > 1 {
            read_u64_at(bytes, 32)
        } else {
            0
        };
        let comment_addr = if links > 2 {
            read_u64_at(bytes, 40)
        } else {
            0
        };
        Ok(SourceBlock {
            header,
            name_addr,
            path_addr,
            comment_addr,
            source_type: bytes[data_start],
            bus_type: bytes[data_start + 1],
            flags: bytes[data_start + 2],
        })
    }
}

/// Reads the source information block at `address` of a whole file image.
pub fn read_source_block(mmap: &[u8], address: u64) -> (r: Result<SourceBlock>)
    requires
        address + 24 <= mmap@.len(),
        address + u64_at(mmap@, address + 8) <= mmap@.len(),
    ensures
        r matches Ok(s) ==> s.parsed_from(mmap@.subrange(address as int, address + u64_at(mmap@, address + 8))),
        (r is Ok) == (lossy_utf8(mmap@.subrange(address as int, address + 4)) == si_id()
            && u64_at(mmap@, address + 8) >= 24 + 8 * u64_at(mmap@, address + 16) + 3),
        lossy_utf8(mmap@.subrange(address as int, address + 4)) != si_id() ==> (r matches Err(e)
            && (e is BlockIDError || u64_at(mmap@, address + 8) < 24)),
        lossy_utf8(mmap@.subrange(address as int, address + 4)) == si_id() && u64_at(mmap@, address + 8) < 24 + 8
            * u64_at(mmap@, address + 16) + 3 ==> (r matches Err(e) && e is TooShortBuffer),
{
    let n = mmap.len();
    let start = address as usize;
    let header = match BlockHeader::from_bytes(slice_subrange(mmap, start, start + 24)) {
        Ok(h) => h,
        Err(e) => {
            return Err(e);
        },
    };
    proof {
        assert(mmap@.subrange(start as int, start + 24).subrange(8, 16) =~= mmap@.subrange(address + 8, address + 16));
    }
    let total_len = header.block_len as usize;
    let block = slice_subrange(mmap, start, start + total_len);
    proof {
        let b = mmap@.subrange(address as int, address + u64_at(mmap@, address + 8));
        assert(block@ =~= b);
        if total_len >= 24 {
            assert(b.subrange(0, 4) =~= mmap@.subrange(address as int, address + 4));
            assert(b.subrange(16, 24) =~= mmap@.subrange(address + 16, address + 24));
        }
    }
    SourceBlock::from_bytes(block)
}

/// The bytes of a source information block with three links (`name`, no
/// path, no comment) and the given type, bus type and flags.
pub open spec fn source_block_bytes(name: u64, source_type: u8, bus_type: u8, flags: u8) -> Seq<u8> {
    crate::blocks::common::header_bytes(si_id(), 0, 56, 3) + vstd::bytes::spec_u64_to_le_bytes(name)
        + vstd::bytes::spec_u64_to_le_bytes(0) + vstd::bytes::spec_u64_to_le_bytes(0) + seq![
        source_type,
        bus_type,
        flags,
        0u8,
        0u8,
        0u8,
        0u8,
        0u8,
    ]
}

/// Law: a source information block serialized by
/// [`source_block_to_bytes`] is read back with the name link, the source
/// type, the bus type and the flags it was written with, and without a
/// path or a comment.
pub proof fn lemma_source_block_roundtrip(name: u64, source_type: u8, bus_type: u8, flags: u8, s: SourceBlock)
    requires
        s.parsed_from(source_block_bytes(name, source_type, bus_type, flags)),
    ensures
        s.name_addr == name,
        s.path_addr == 0,
        s.comment_addr == 0,
        s.source_type == source_type,
        s.bus_type == bus_type,
        s.flags == flags,
        s.header.links_nr == 3,
        s.header.block_len == 56,
{
    let b = source_block_bytes(name, source_type, bus_type, flags);
    crate::blocks::common::lemma_ascii_id_len(si_id());
    crate::blocks::common::lemma_block_header_roundtrip(si_id(), 0, 56, 3);
    crate::blocks::common::lemma_le_roundtrips();
    let h = crate::blocks::common::header_bytes(si_id(), 0, 56, 3);
    assert(b.subrange(0, 24) =~= h);
    assert(b.subrange(8, 16) =~= h.subrange(8, 16));
    assert(b.subrange(16, 24) =~= h.subrange(16, 24));
    assert(b.subrange(24, 32) =~= vstd::bytes::spec_u64_to_le_bytes(name));
    assert(b.subrange(32, 40) =~= vstd::bytes::spec_u64_to_le_bytes(0));
    assert(b.subrange(40, 48) =~= vstd::bytes::spec_u64_to_le_bytes(0));
    assert(b[48] == source_type && b[49] == bus_type && b[50] == flags);
}

/// Serializes a source information block naming the text block at
/// `name`, with no path and no comment.
pub fn source_block_to_bytes(name: u64, source_type: u8, bus_type: u8, flags: u8) -> (r: Vec<u8>)
    ensures
        r@ == source_block_bytes(name, source_type, bus_type, flags),
        r@.len() == 56,
{
    let header = BlockHeader {
        id: String::from_str(SourceBlock::block_id()),
        reserved0: 0,
        block_len: 56,
        links_nr: 3,
    };
    let mut buf = match header.to_bytes() {
        Ok(b) => b,
        Err(_) => Vec::new(),
    };
    crate::blocks::common::push_u64_le(&mut buf, name);
    crate::blocks::common::push_u64_le(&mut buf, 0);
    crate::blocks::common::push_u64_le(&mut buf, 0);
    buf.push(source_type);
    buf.push(bus_type);
    buf.push(flags);
    crate::blocks::common::push_zeros(&mut buf, 5);
    proof {
        crate::blocks::common::lemma_le_roundtrips();
        assert(crate::blocks::common::zeros(5) =~= seq![0u8, 0u8, 0u8, 0u8, 0u8]);
        assert(buf@ =~= source_block_bytes(name, source_type, bus_type, flags));
    }
    buf
}

} // verus!
