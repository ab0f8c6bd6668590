//! Data blocks (`##DT`, `##DV`) holding records, and data list blocks
//! (`##DL`) that chain fragments of a group's data.
use crate::blocks::common::{read_u32_at, read_u64_at, u32_at, u64_at, BlockHeader, BlockParse};
use crate::error::{Error, Result};
use crate::text::{lossy_utf8, str_eq};
use vstd::prelude::*;
use vstd::slice::slice_subrange;
use vstd::string::StringExecFns;

verus! {

/// The identifier `##DT`.
pub open spec fn dt_block_id() -> Seq<char> {
    seq!['#', '#', 'D', 'T']
}

/// The identifier `##DV`.
pub open spec fn dv_block_id() -> Seq<char> {
    seq!['#', '#', 'D', 'V']
}

/// The identifier `##DL`.
pub open spec fn dl_id() -> Seq<char> {
    seq!['#', '#', 'D', 'L']
}

/// A data block: its header and the record bytes after it.
pub struct DataBlock<'a> {
    pub header: BlockHeader,
    /// The bytes after the header, up to the block's length
    pub data: &'a [u8],
}

impl<'a> DataBlock<'a> {
    /// Whether this is the data block at the start of `b`.
    pub open spec fn parsed_from(&self, b: Seq<u8>) -> bool {
        &&& self.header.parsed_from(b)
        &&& 24 <= self.header.block_len <= b.len()
        &&& self.data@ == b.subrange(24, self.header.block_len as int)
    }

    /// Parses a data block (`##DT` or `##DV`). Fails with
    /// [`Error::BlockIDError`] for another identifier, and with
    /// [`Error::TooShortBuffer`] when the bytes end before the header or
    /// the block, or the block is shorter than its header.
    pub fn from_bytes(bytes: &'a [u8]) -> (r: Result<DataBlock<'a>>)
        ensures
            r matches Ok(d) ==> d.parsed_from(bytes@),
            bytes@.len() >= 24 ==> (r is Ok <==> (lossy_utf8(bytes@.subrange(0, 4)) == dt_block_id()
                || lossy_utf8(bytes@.subrange(0, 4)) == dv_block_id()) && 24 <= u64_at(bytes@, 8)
                <= bytes@.len()),
            r matches Err(e) ==> e is BlockIDError || e is TooShortBuffer,
    {
        if bytes.len() < 24 {
            return Err(Error::TooShortBuffer {
                actual: bytes.len(),
                expected: 24,
                file: "blocks/data_block.rs",
                line: 0,
            });
        }
        let header = match BlockHeader::from_bytes(slice_subrange(bytes, 0, 24)) {
            Ok(h) => h,
            Err(e) => {
                return Err(e);
            },
        };
        proof {
            assert(bytes@.subrange(0, 24).subrange(0, 4) =~= bytes@.subrange(0, 4));
            assert(bytes@.subrange(0, 24).subrange(4, 8) =~= bytes@.subrange(4, 8));
            assert(bytes@.subrange(0, 24).subrange(8, 16) =~= bytes@.subrange(8, 16));
            assert(bytes@.subrange(0, 24).subrange(16, 24) =~= bytes@.subrange(16, 24));
        }
        let dt = "##DT";
        let dv = "##DV";
        proof {
            reveal_strlit("##DT");
            reveal_strlit("##DV");
            assert(dt@ =~= dt_block_id());
            assert(dv@ =~= dv_block_id());
        }
        if !str_eq(header.id.as_str(), dt) && !str_eq(header.id.as_str(), dv) {
            return Err(Error::BlockIDError {
                actual: header.id.clone(),
                expected: String::from_str(dt),
            });
        }
        let len = header.block_len;
        if len < 24 || len > bytes.len() as u64 {
            return Err(Error::TooShortBuffer {
                actual: bytes.len(),
                expected: if len < 24 { 24 } else { len as usize },
                file: "blocks/data_block.rs",
                line: 0,
            });
        }
        let data = slice_subrange(bytes, 24, len as usize);
        Ok(DataBlock { header, data })
    }
}

/// A data list block: the next list block in the chain, and the data
/// blocks (fragments) this one lists.
pub struct DataListBlock {
    pub header: BlockHeader,
    /// Link to the next data list block (0 = none)
    pub next: u64,
    /// Links to the listed data blocks
    pub data_links: Vec<u64>,
    /// Flags (bit 0: fragments of equal length)
    pub flags: u8,
    /// Number of listed data blocks, as stored
    pub count: u32,
}

/// The data links of the list block at the start of `b`, which has
/// `links_nr` links (the first being the next list block).
pub open spec fn dl_data_links(b: Seq<u8>, links_nr: u64) -> Seq<u64> {
    Seq::new((links_nr - 1) as nat, |k: int| u64_at(b, 32 + 8 * k))
}

impl DataListBlock {
    /// Whether this is the list block at the start of `b`.
    pub open spec fn parsed_from(&self, b: Seq<u8>) -> bool {
        let data_start = 24 + 8 * self.header.links_nr;
        &&& self.header.parsed_from(b)
        &&& self.header.id@ == dl_id()
        &&& self.header.links_nr >= 1
        &&& self.next == u64_at(b, 24)
        &&& self.data_links@ == dl_data_links(b, self.header.links_nr)
        &&& self.flags == b[data_start]
        &&& self.count == u32_at(b, data_start + 4)
    }
}

/// The length a list block with `links_nr` links needs: header, links,
/// flags, reserved bytes and count.
pub open spec fn dl_min_len(links_nr: u64) -> int {
    24 + 8 * links_nr + 8
}

impl BlockParse for DataListBlock {
    open spec fn spec_id() -> Seq<char> {
        dl_id()
    }

    fn block_id() -> (r: &'static str) {
        proof {
            reveal_strlit("##DL");
        }
        "##DL"
    }

    /// Parses a data list block. Fails with [`Error::BlockIDError`] when
    /// the identifier is not `##DL`, and with [`Error::TooShortBuffer`]
    /// when the block has no link or the bytes end before its links,
    /// flags and count.
    fn from_bytes(bytes: &[u8]) -> (r: Result<Self>)
        ensures
            r matches Ok(d) ==> d.parsed_from(bytes@),
            bytes@.len() >= 24 ==> (r is Ok <==> lossy_utf8(bytes@.subrange(0, 4)) == dl_id()
                && u64_at(bytes@, 16) >= 1 && bytes@.len() >= dl_min_len(u64_at(bytes@, 16))),
            r matches Err(e) ==> e is BlockIDError || e is TooShortBuffer,
    {
        if bytes.len() < 24 {
            return Err(Error::TooShortBuffer {
                actual: bytes.len(),
                expected: 24,
                file: "blocks/data_block.rs",
                line: 0,
            });
        }
        let header = match Self::parse_header(bytes) {
            Ok(h) => h,
            Err(e) => {
                return Err(e);
            },
        };
        let links = header.links_nr;
        let room = (bytes.len() - 24) as u64;
        if links == 0 || links > room / 8 || room - links * 8 < 8 {
            return Err(Error::TooShortBuffer {
                actual: bytes.len(),
                expected: if links == 0 || links > (usize::MAX as u64 - 32) / 8 {
                    32
                } else {
                    (24 + links * 8 + 8) as usize
                },
                file: "blocks/data_block.rs",
                line: 0,
            });
        }
        let next = read_u64_at(bytes, 24);
        let mut data_links: Vec<u64> = Vec::new();
        let mut k: u64 = 1;
        let total = bytes.len();
        while k < links
            invariant
                1 <= k <= links,
                24 + 8 * links + 8 <= bytes@.len(),
                total == bytes@.len(),
                data_links@ == dl_data_links(bytes@, k),
            decreases links - k,
        {
            let off = (24 + 8 * k) as usize;
            data_links.push(read_u64_at(bytes, off));
            proof {
                assert(data_links@ =~= dl_data_links(bytes@, (k + 1) as u64));
            }
            k = k + 1;
        }
        let data_start = (24 + 8 * links) as usize;
        Ok(DataListBlock {
            header,
            next,
            data_links,
            flags: bytes[data_start],
            count: read_u32_at(bytes, data_start + 4),
        })
    }
}

} // verus!
