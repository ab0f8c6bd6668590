//! The channel block (`##CN`): one measurement signal within a record.
//! Range and limit values are held as the bit patterns of 64-bit IEEE-754
//! numbers.
use crate::blocks::common::{
    data_type_code, data_type_of_code, lemma_header_prefix, lemma_le_roundtrips, push_u16_le,
    push_u32_le, push_u64_le, read_u16_at, read_u32_at, read_u64_at, u16_at, u32_at, u64_at,
    BlockHeader, BlockParse, DataType,
};
use crate::blocks::conversion::{cc_id, cc_parsed_len, ConversionBlock};
use crate::blocks::conversion_refs::{algebraic_formula, id_of_block, tail_from};
use crate::blocks::text_block::{block_text, text_data_end, tx_id, u64_at_8, TextBlock};
use crate::error::{Error, Result};
use crate::text::{concat3, decimal_string, lossy_utf8, str_eq};
use vstd::bytes::*;
use vstd::prelude::*;
use vstd::slice::slice_subrange;
use vstd::string::StringExecFns;

verus! {

/// The identifier `##CN`.
pub open spec fn cn_id() -> Seq<char> {
    seq!['#', '#', 'C', 'N']
}

/// Offset of the link to the next channel within a channel block.
pub const CN_NEXT_LINK: u64 = 24;

/// Offset of the link to the name text within a channel block.
pub const CN_NAME_LINK: u64 = 40;

/// Offset of the link to the conversion within a channel block.
pub const CN_CONVERSION_LINK: u64 = 56;

/// Offset of the link to the unit text within a channel block.
pub const CN_UNIT_LINK: u64 = 72;

/// Offset of the channel type byte within a channel block.
pub const CN_CHANNEL_TYPE_OFFSET: u64 = 88;

/// Offset of the sync type byte within a channel block.
pub const CN_SYNC_TYPE_OFFSET: u64 = 89;

/// Offset of the lower limit within a channel block.
pub const CN_LOWER_LIMIT_OFFSET: u64 = 128;

/// The MDF channel block (160 bytes).
pub struct ChannelBlock {
    pub header: BlockHeader,
    pub next_ch_addr: u64,
    pub component_addr: u64,
    pub name_addr: u64,
    pub source_addr: u64,
    pub conversion_addr: u64,
    pub data: u64,
    pub unit_addr: u64,
    pub comment_addr: u64,
    pub channel_type: u8,
    pub sync_type: u8,
    pub data_type: DataType,
    pub bit_offset: u8,
    pub byte_offset: u32,
    pub bit_count: u32,
    pub flags: u32,
    pub pos_invalidation_bit: u32,
    pub precision: u8,
    pub reserved1: u8,
    pub attachment_nr: u16,
    pub min_raw_value: u64,
    pub max_raw_value: u64,
    pub lower_limit: u64,
    pub upper_limit: u64,
    pub lower_ext_limit: u64,
    pub upper_ext_limit: u64,
    /// The channel name, once resolved or when set before writing
    pub name: Option<String>,
    /// The conversion, once resolved
    pub conversion: Option<ConversionBlock>,
}

impl ChannelBlock {
    /// The 160 bytes that encode this block (`name` and `conversion` are
    /// reached through their links and are not part of it).
    pub open spec fn spec_bytes(&self) -> Seq<u8> {
        self.header.spec_bytes() + spec_u64_to_le_bytes(self.next_ch_addr) + spec_u64_to_le_bytes(
            self.component_addr,
        ) + spec_u64_to_le_bytes(self.name_addr) + spec_u64_to_le_bytes(self.source_addr)
            + spec_u64_to_le_bytes(self.conversion_addr) + spec_u64_to_le_bytes(self.data)
            + spec_u64_to_le_bytes(self.unit_addr) + spec_u64_to_le_bytes(self.comment_addr) + seq![
            self.channel_type,
            self.sync_type,
            data_type_code(self.data_type),
            self.bit_offset,
        ] + spec_u32_to_le_bytes(self.byte_offset) + spec_u32_to_le_bytes(self.bit_count)
            + spec_u32_to_le_bytes(self.flags) + spec_u32_to_le_bytes(self.pos_invalidation_bit)
            + seq![self.precision, self.reserved1] + spec_u16_to_le_bytes(self.attachment_nr)
            + spec_u64_to_le_bytes(self.min_raw_value) + spec_u64_to_le_bytes(self.max_raw_value)
            + spec_u64_to_le_bytes(self.lower_limit) + spec_u64_to_le_bytes(self.upper_limit)
            + spec_u64_to_le_bytes(self.lower_ext_limit) + spec_u64_to_le_bytes(
            self.upper_ext_limit,
        )
    }

    /// Whether every stored field is what `from_bytes` reads from `b`.
    pub open spec fn fields_parsed_from(&self, b: Seq<u8>) -> bool {
        &&& b.len() >= 160
        &&& self.header.parsed_from(b)
        &&& self.next_ch_addr == u64_at(b, 24)
        &&& self.component_addr == u64_at(b, 32)
        &&& self.name_addr == u64_at(b, 40)
        &&& self.source_addr == u64_at(b, 48)
        &&& self.conversion_addr == u64_at(b, 56)
        &&& self.data == u64_at(b, 64)
        &&& self.unit_addr == u64_at(b, 72)
        &&& self.comment_addr == u64_at(b, 80)
        &&& self.channel_type == b[88]
        &&& self.sync_type == b[89]
        &&& self.data_type == data_type_of_code(b[90])
        &&& self.bit_offset == b[91]
        &&& self.byte_offset == u32_at(b, 92)
        &&& self.bit_count == u32_at(b, 96)
        &&& self.flags == u32_at(b, 100)
        &&& self.pos_invalidation_bit == u32_at(b, 104)
        &&& self.precision == b[108]
        &&& self.reserved1 == b[109]
        &&& self.attachment_nr == u16_at(b, 110)
        &&& self.min_raw_value == u64_at(b, 112)
        &&& self.max_raw_value == u64_at(b, 120)
        &&& self.lower_limit == u64_at(b, 128)
        &&& self.upper_limit == u64_at(b, 136)
        &&& self.lower_ext_limit == u64_at(b, 144)
        &&& self.upper_ext_limit == u64_at(b, 152)
    }

    /// Whether this block is what `from_bytes` reads from `b` (name and
    /// conversion not yet resolved).
    pub open spec fn parsed_from(&self, b: Seq<u8>) -> bool {
        self.fields_parsed_from(b) && self.name is None && self.conversion is None
    }

    /// Law: the link offsets the writer patches are those the parser reads
    /// the links from: next channel, name, conversion and unit.
    pub proof fn lemma_link_offsets(&self, b: Seq<u8>)
        requires
            self.fields_parsed_from(b),
        ensures
            self.next_ch_addr == u64_at(b, CN_NEXT_LINK as int),
            self.name_addr == u64_at(b, CN_NAME_LINK as int),
            self.conversion_addr == u64_at(b, CN_CONVERSION_LINK as int),
            self.unit_addr == u64_at(b, CN_UNIT_LINK as int),
            self.channel_type == b[CN_CHANNEL_TYPE_OFFSET as int],
            self.sync_type == b[CN_SYNC_TYPE_OFFSET as int],
    {
    }

    /// Whether the block may be serialized: identifier `##CN` and length 160.
    pub open spec fn serializable(&self) -> bool {
        self.header.id@ == cn_id() && self.header.block_len == 160
    }

    /// Serializes the block. Fails with [`Error::BlockSerializationError`]
    /// exactly when the identifier is not `##CN` or the length is not 160.
    pub fn to_bytes(&self) -> (r: Result<Vec<u8>>)
        ensures
            r is Ok <==> self.serializable(),
            r matches Ok(b) ==> b@ == self.spec_bytes() && b@.len() == 160,
            r matches Err(e) ==> e is BlockSerializationError,
    {
        if !str_eq(self.header.id.as_str(), ChannelBlock::block_id()) {
            return Err(
                Error::BlockSerializationError(
                    concat3("ChannelBlock must have ID '##CN', found '", self.header.id.as_str(), "'"),
                ),
            );
        }
        if self.header.block_len != 160 {
            let n = decimal_string(self.header.block_len);
            return Err(
                Error::BlockSerializationError(
                    concat3("ChannelBlock must have block_len=160, found ", n.as_str(), ""),
                ),
            );
        }
        let mut buffer: Vec<u8> = match self.header.to_bytes() {
            Ok(b) => b,
            Err(e) => {
                return Err(e);
            },
        };
        push_u64_le(&mut buffer, self.next_ch_addr);
        push_u64_le(&mut buffer, self.component_addr);
        push_u64_le(&mut buffer, self.name_addr);
        push_u64_le(&mut buffer, self.source_addr);
        push_u64_le(&mut buffer, self.conversion_addr);
        push_u64_le(&mut buffer, self.data);
        push_u64_le(&mut buffer, self.unit_addr);
        push_u64_le(&mut buffer, self.comment_addr);
        buffer.push(self.channel_type);
        buffer.push(self.sync_type);
        buffer.push(self.data_type.to_u8());
        buffer.push(self.bit_offset);
        push_u32_le(&mut buffer, self.byte_offset);
        push_u32_le(&mut buffer, self.bit_count);
        push_u32_le(&mut buffer, self.flags);
        push_u32_le(&mut buffer, self.pos_invalidation_bit);
        buffer.push(self.precision);
        buffer.push(self.reserved1);
        push_u16_le(&mut buffer, self.attachment_nr);
        push_u64_le(&mut buffer, self.min_raw_value);
        push_u64_le(&mut buffer, self.max_raw_value);
        push_u64_le(&mut buffer, self.lower_limit);
        push_u64_le(&mut buffer, self.upper_limit);
        push_u64_le(&mut buffer, self.lower_ext_limit);
        push_u64_le(&mut buffer, self.upper_ext_limit);
        proof {
            lemma_le_roundtrips();
            assert(buffer@ =~= self.spec_bytes());
        }
        Ok(buffer)
    }

    /// A channel of unsigned little-endian integers with no links, zero
    /// bit count and zero ranges.
    pub fn default() -> (r: Self)
        ensures
            r.serializable(),
            r.header.reserved0 == 0 && r.header.links_nr == 8,
            r.next_ch_addr == 0 && r.component_addr == 0 && r.name_addr == 0,
            r.source_addr == 0 && r.conversion_addr == 0 && r.data == 0,
            r.unit_addr == 0 && r.comment_addr == 0,
            r.channel_type == 0 && r.sync_type == 0,
            r.data_type == DataType::UnsignedIntegerLE,
            r.bit_offset == 0 && r.byte_offset == 0 && r.bit_count == 0 && r.flags == 0,
            r.pos_invalidation_bit == 0 && r.precision == 0 && r.reserved1 == 0,
            r.attachment_nr == 0,
            r.min_raw_value == 0 && r.max_raw_value == 0 && r.lower_limit == 0,
            r.upper_limit == 0 && r.lower_ext_limit == 0 && r.upper_ext_limit == 0,
            r.name is None && r.conversion is None,
    {
        ChannelBlock {
            header: BlockHeader {
                id: String::from_str(ChannelBlock::block_id()),
                reserved0: 0,
                block_len: 160,
                links_nr: 8,
            },
            next_ch_addr: 0,
            component_addr: 0,
            name_addr: 0,
            source_addr: 0,
            conversion_addr: 0,
            data: 0,
            unit_addr: 0,
            comment_addr: 0,
            channel_type: 0,
            sync_type: 0,
            data_type: DataType::UnsignedIntegerLE,
            bit_offset: 0,
            byte_offset: 0,
            bit_count: 0,
            flags: 0,
            pos_invalidation_bit: 0,
            precision: 0,
            reserved1: 0,
            attachment_nr: 0,
            min_raw_value: 0,
            max_raw_value: 0,
            lower_limit: 0,
            upper_limit: 0,
            lower_ext_limit: 0,
            upper_ext_limit: 0,
            name: None,
            conversion: None,
        }
    }
}

impl BlockParse for ChannelBlock {
    open spec fn spec_id() -> Seq<char> {
        cn_id()
    }

    fn block_id() -> (r: &'static str) {
        proof {
            reveal_strlit("##CN");
        }
        "##CN"
    }

    /// Parses a channel block without resolving its name or conversion;
    /// fails with [`Error::BlockIDError`] when the identifier is not `##CN`
    /// and with [`Error::TooShortBuffer`] when fewer than 160 bytes are given.
    fn from_bytes(bytes: &[u8]) -> (r: Result<Self>)
        ensures
            bytes@.len() >= 24 ==> (r is Ok <==> lossy_utf8(bytes@.subrange(0, 4)) == cn_id()
                && bytes@.len() >= 160),
            r matches Ok(cn) ==> cn.parsed_from(bytes@),
            bytes@.len() >= 24 && lossy_utf8(bytes@.subrange(0, 4)) != cn_id() ==> (r matches Err(
                e,
            ) && e is BlockIDError),
            bytes@.len() >= 24 && lossy_utf8(bytes@.subrange(0, 4)) == cn_id() && bytes@.len()
                < 160 ==> (r matches Err(e) && e is TooShortBuffer),
            bytes@.len() < 24 ==> (r matches Err(e) && e is TooShortBuffer),
    {
        if bytes.len() < 24 {
            return Err(Error::TooShortBuffer {
                actual: bytes.len(),
                expected: 24,
                file: "blocks/channel_block.rs",
                line: 0,
            });
        }
        let header = match Self::parse_header(bytes) {
            Ok(h) => h,
            Err(e) => {
                return Err(e);
            },
        };
        if bytes.len() < 160 {
            return Err(Error::TooShortBuffer {
                actual: bytes.len(),
                expected: 160,
                file: "blocks/channel_block.rs",
                line: 0,
            });
        }
        Ok(ChannelBlock {
            header,
            next_ch_addr: read_u64_at(bytes, 24),
            component_addr: read_u64_at(bytes, 32),
            name_addr: read_u64_at(bytes, 40),
            source_addr: read_u64_at(bytes, 48),
            conversion_addr: read_u64_at(bytes, 56),
            data: read_u64_at(bytes, 64),
            unit_addr: read_u64_at(bytes, 72),
            comment_addr: read_u64_at(bytes, 80),
            channel_type: bytes[88],
            sync_type: bytes[89],
            data_type: DataType::from_u8(bytes[90]),
            bit_offset: bytes[91],
            byte_offset: read_u32_at(bytes, 92),
            bit_count: read_u32_at(bytes, 96),
            flags: read_u32_at(bytes, 100),
            pos_invalidation_bit: read_u32_at(bytes, 104),
            precision: bytes[108],
            reserved1: bytes[109],
            attachment_nr: read_u16_at(bytes, 110),
            min_raw_value: read_u64_at(bytes, 112),
            max_raw_value: read_u64_at(bytes, 120),
            lower_limit: read_u64_at(bytes, 128),
            upper_limit: read_u64_at(bytes, 136),
            lower_ext_limit: read_u64_at(bytes, 144),
            upper_ext_limit: read_u64_at(bytes, 152),
            name: None,
            conversion: None,
        })
    }
}

/// Law: every stored field of a serializable channel block with a known
/// data type is read back unchanged from its serialization.
#[verifier::rlimit(40)]
pub proof fn lemma_channel_roundtrip(cn: ChannelBlock)
    requires
        cn.serializable(),
        !(cn.data_type is Unknown),
    ensures
        cn.fields_parsed_from(cn.spec_bytes()),
        lossy_utf8(cn.spec_bytes().subrange(0, 4)) == cn_id(),
{
    let b = cn.spec_bytes();
    lemma_le_roundtrips();
    crate::blocks::common::lemma_ascii_id_len(cn_id());
    crate::blocks::common::lemma_data_type_code_roundtrip(cn.data_type, 0);
    assert(b.subrange(0, 24) =~= cn.header.spec_bytes());
    lemma_header_prefix(cn.header, b);
    assert(b.subrange(24, 32) =~= spec_u64_to_le_bytes(cn.next_ch_addr));
    assert(b.subrange(32, 40) =~= spec_u64_to_le_bytes(cn.component_addr));
    assert(b.subrange(40, 48) =~= spec_u64_to_le_bytes(cn.name_addr));
    assert(b.subrange(48, 56) =~= spec_u64_to_le_bytes(cn.source_addr));
    assert(b.subrange(56, 64) =~= spec_u64_to_le_bytes(cn.conversion_addr));
    assert(b.subrange(64, 72) =~= spec_u64_to_le_bytes(cn.data));
    assert(b.subrange(72, 80) =~= spec_u64_to_le_bytes(cn.unit_addr));
    assert(b.subrange(80, 88) =~= spec_u64_to_le_bytes(cn.comment_addr));
    assert(b.subrange(92, 96) =~= spec_u32_to_le_bytes(cn.byte_offset));
    assert(b.subrange(96, 100) =~= spec_u32_to_le_bytes(cn.bit_count));
    assert(b.subrange(100, 104) =~= spec_u32_to_le_bytes(cn.flags));
    assert(b.subrange(104, 108) =~= spec_u32_to_le_bytes(cn.pos_invalidation_bit));
    assert(b.subrange(110, 112) =~= spec_u16_to_le_bytes(cn.attachment_nr));
    assert(b.subrange(112, 120) =~= spec_u64_to_le_bytes(cn.min_raw_value));
    assert(b.subrange(120, 128) =~= spec_u64_to_le_bytes(cn.max_raw_value));
    assert(b.subrange(128, 136) =~= spec_u64_to_le_bytes(cn.lower_limit));
    assert(b.subrange(136, 144) =~= spec_u64_to_le_bytes(cn.upper_limit));
    assert(b.subrange(144, 152) =~= spec_u64_to_le_bytes(cn.lower_ext_limit));
    assert(b.subrange(152, 160) =~= spec_u64_to_le_bytes(cn.upper_ext_limit));
}

/// The channel `ch` with its name link set to `a`.
pub open spec fn with_name_link(ch: ChannelBlock, a: u64) -> ChannelBlock {
    ChannelBlock { name_addr: a, ..ch }
}

/// Setting the name link changes exactly the eight bytes at offset 40 of
/// the block's encoding.
pub proof fn lemma_name_link_bytes(ch: ChannelBlock, a: u64)
    ensures
        with_name_link(ch, a).spec_bytes() == ch.spec_bytes().subrange(0, 40) + spec_u64_to_le_bytes(a)
            + ch.spec_bytes().subrange(48, 160),
        ch.spec_bytes().len() == 160,
{
    crate::blocks::common::lemma_le_roundtrips();

    let c2 = with_name_link(ch, a);
    assert(c2.spec_bytes() =~= ch.spec_bytes().subrange(0, 40) + spec_u64_to_le_bytes(a)
        + ch.spec_bytes().subrange(48, 160));
}

impl ChannelBlock {
    /// Reads the channel's name from the text block that its name link
    /// leads to in the file image `file_data`. Nothing happens when the name
    /// is already known, the link is null, or fewer than 16 bytes of the
    /// image follow the link. Fails, changing nothing, when no whole text
    /// block stands there.
    pub fn resolve_name(&mut self, file_data: &[u8]) -> (r: Result<()>)
        ensures
            ({
                let o = *old(self);
                let b = tail_from(file_data@, o.name_addr);
                if o.name is Some || o.name_addr == 0 || o.name_addr + 16 > file_data@.len() {
                    r is Ok && *final(self) == o
                } else {
                    &&& (r is Ok <==> b.len() >= 24 && lossy_utf8(b.subrange(0, 4)) == tx_id()
                        && b.len() >= text_data_end(u64_at_8(b)))
                    &&& r is Err ==> *final(self) == o
                    &&& r is Ok ==> (final(self).name matches Some(t) && t@ == block_text(b)
                        && *final(self) == (ChannelBlock { name: final(self).name, ..o }))
                }
            }),
    {
        if self.name.is_none() && self.name_addr != 0 {
            let n = file_data.len();
            if self.name_addr <= n as u64 && (n as u64) - self.name_addr >= 16 {
                let offset = self.name_addr as usize;
                let tb = match TextBlock::from_bytes(slice_subrange(file_data, offset, n)) {
                    Ok(t) => t,
                    Err(e) => {
                        return Err(e);
                    },
                };
                self.name = Some(tb.text);
            }
        }
        Ok(())
    }

    /// Reads the conversion block that the conversion link leads to in the
    /// file image `bytes`, with the formula of an algebraic conversion.
    /// Nothing happens when the conversion is already known or the link is
    /// null. Fails with [`Error::TooShortBuffer`] when fewer than 24 bytes of
    /// the image follow the link, and, changing nothing, when no whole
    /// conversion block stands there.
    pub fn resolve_conversion(&mut self, bytes: &[u8]) -> (r: Result<()>)
        ensures
            ({
                let o = *old(self);
                let a = o.conversion_addr;
                let b = tail_from(bytes@, a);
                if o.conversion is Some || a == 0 {
                    r is Ok && *final(self) == o
                } else if bytes@.len() < a + 24 {
                    r matches Err(e) && e is TooShortBuffer && *final(self) == o
                } else {
                    &&& (r is Ok <==> id_of_block(bytes@, a) == cc_id() && b.len() >= cc_parsed_len(b))
                    &&& r is Err ==> *final(self) == o
                    &&& r is Ok ==> (final(self).conversion matches Some(c) && c.fields_parsed_from(b)
                        && c.resolved_texts is None && c.resolved_conversions is None
                        && c.default_conversion is None
                        && match algebraic_formula(bytes@, &c) {
                        Some(f) => c.formula matches Some(g) && g@ == f,
                        None => c.formula is None,
                    } && *final(self) == (ChannelBlock { conversion: final(self).conversion, ..o }))
                }
            }),
    {
        if self.conversion.is_none() && self.conversion_addr != 0 {
            let a = self.conversion_addr;
            let n = bytes.len();
            if a > n as u64 || (n as u64) - a < 24 {
                return Err(Error::TooShortBuffer {
                    actual: n,
                    expected: (a as usize).saturating_add(24),
                    file: "blocks/channel_block.rs",
                    line: 0,
                });
            }
            let offset = a as usize;
            let rest = slice_subrange(bytes, offset, n);
            proof {
                assert(rest@.subrange(0, 4) =~= bytes@.subrange(a as int, a + 4));
            }
            let mut conv = match ConversionBlock::from_bytes(rest) {
                Ok(c) => c,
                Err(e) => {
                    return Err(e);
                },
            };
            let _ = conv.resolve_formula(bytes);
            self.conversion = Some(conv);
        }
        Ok(())
    }
}

} // verus!
