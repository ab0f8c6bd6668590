//! The block header shared by all MDF blocks, the channel data types, and
//! the little-endian byte helpers that block (de)serialization uses.
use crate::error::{Error, Result};
use crate::text::{lossy_utf8, utf8_lossy};
use vstd::bytes::*;
use vstd::prelude::*;
use vstd::slice::slice_subrange;
use vstd::utf8::encode_utf8;
use vstd::string::StringExecFns;

verus! {

// ---------------------------------------------------------------------------
// Byte helpers
// ---------------------------------------------------------------------------

/// `n` zero bytes.
pub open spec fn zeros(n: nat) -> Seq<u8> {
    Seq::new(n, |i: int| 0u8)
}

/// Little-endian encoding of an `i16`.
pub open spec fn spec_i16_to_le_bytes(x: i16) -> Seq<u8> {
    spec_u16_to_le_bytes(x as u16)
}

/// Appends `n` zero bytes to `buf`.
pub fn push_zeros(buf: &mut Vec<u8>, n: usize)
    ensures
        final(buf)@ == old(buf)@ + zeros(n as nat),
{
    let ghost start = buf@;
    let mut i: usize = 0;
    while i < n
        invariant
            i <= n,
            buf@ == start + zeros(i as nat),
        decreases n - i,
    {
        buf.push(0u8);
        i = i + 1;
        assert(buf@ =~= start + zeros(i as nat));
    }
}

/// Appends the bytes of `src` to `buf`.
pub fn push_slice(buf: &mut Vec<u8>, src: &[u8])
    ensures
        final(buf)@ == old(buf)@ + src@,
{
    let ghost start = buf@;
    let mut i: usize = 0;
    while i < src.len()
        invariant
            i <= src@.len(),
            buf@ == start + src@.subrange(0, i as int),
        decreases src@.len() - i,
    {
        buf.push(src[i]);
        i = i + 1;
        assert(buf@ =~= start + src@.subrange(0, i as int));
    }
    assert(src@.subrange(0, src@.len() as int) =~= src@);
}

/// Appends the little-endian bytes of a `u16`.
pub fn push_u16_le(buf: &mut Vec<u8>, v: u16)
    ensures
        final(buf)@ == old(buf)@ + spec_u16_to_le_bytes(v),
{
    let mut b = u16_to_le_bytes(v);
    buf.append(&mut b);
}

/// Appends the little-endian bytes of an `i16`.
pub fn push_i16_le(buf: &mut Vec<u8>, v: i16)
    ensures
        final(buf)@ == old(buf)@ + spec_i16_to_le_bytes(v),
{
    let mut b = u16_to_le_bytes(v as u16);
    buf.append(&mut b);
}

/// Appends the little-endian bytes of a `u32`.
pub fn push_u32_le(buf: &mut Vec<u8>, v: u32)
    ensures
        final(buf)@ == old(buf)@ + spec_u32_to_le_bytes(v),
{
    let mut b = u32_to_le_bytes(v);
    buf.append(&mut b);
}

/// Appends the little-endian bytes of a `u64`.
pub fn push_u64_le(buf: &mut Vec<u8>, v: u64)
    ensures
        final(buf)@ == old(buf)@ + spec_u64_to_le_bytes(v),
{
    let mut b = u64_to_le_bytes(v);
    buf.append(&mut b);
}

/// Reads a little-endian `u16` at `off`.
pub fn read_u16_at(bytes: &[u8], off: usize) -> (v: u16)
    requires
        off + 2 <= bytes.len(),
    ensures
        v == spec_u16_from_le_bytes(bytes@.subrange(off as int, off + 2)),
{
    u16_from_le_bytes(slice_subrange(bytes, off, off + 2))
}

/// Reads a little-endian `i16` at `off`.
pub fn read_i16_at(bytes: &[u8], off: usize) -> (v: i16)
    requires
        off + 2 <= bytes.len(),
    ensures
        v == spec_u16_from_le_bytes(bytes@.subrange(off as int, off + 2)) as i16,
{
    #[verifier::truncate]
    (u16_from_le_bytes(slice_subrange(bytes, off, off + 2)) as i16)
}

/// Reads a little-endian `u32` at `off`.
pub fn read_u32_at(bytes: &[u8], off: usize) -> (v: u32)
    requires
        off + 4 <= bytes.len(),
    ensures
        v == spec_u32_from_le_bytes(bytes@.subrange(off as int, off + 4)),
{
    u32_from_le_bytes(slice_subrange(bytes, off, off + 4))
}

/// Reads a little-endian `u64` at `off`.
pub fn read_u64_at(bytes: &[u8], off: usize) -> (v: u64)
    requires
        off + 8 <= bytes.len(),
    ensures
        v == spec_u64_from_le_bytes(bytes@.subrange(off as int, off + 8)),
{
    u64_from_le_bytes(slice_subrange(bytes, off, off + 8))
}

/// The little-endian `u64` stored at `off` in `b`.
pub open spec fn u64_at(b: Seq<u8>, off: int) -> u64 {
    spec_u64_from_le_bytes(b.subrange(off, off + 8))
}

/// The little-endian `u32` stored at `off` in `b`.
pub open spec fn u32_at(b: Seq<u8>, off: int) -> u32 {
    spec_u32_from_le_bytes(b.subrange(off, off + 4))
}

/// The little-endian `u16` stored at `off` in `b`.
pub open spec fn u16_at(b: Seq<u8>, off: int) -> u16 {
    spec_u16_from_le_bytes(b.subrange(off, off + 2))
}

/// Reading back any encoded integer gives the integer, and encodings have
/// their fixed widths.
pub proof fn lemma_le_roundtrips()
    ensures
        forall|x: u16|
            #![trigger spec_u16_to_le_bytes(x)]
            spec_u16_to_le_bytes(x).len() == 2 && spec_u16_from_le_bytes(spec_u16_to_le_bytes(x))
                == x,
        forall|x: u32|
            #![trigger spec_u32_to_le_bytes(x)]
            spec_u32_to_le_bytes(x).len() == 4 && spec_u32_from_le_bytes(spec_u32_to_le_bytes(x))
                == x,
        forall|x: u64|
            #![trigger spec_u64_to_le_bytes(x)]
            spec_u64_to_le_bytes(x).len() == 8 && spec_u64_from_le_bytes(spec_u64_to_le_bytes(x))
                == x,
{
    lemma_auto_spec_u16_to_from_le_bytes();
    lemma_auto_spec_u32_to_from_le_bytes();
    lemma_auto_spec_u64_to_from_le_bytes();
    assert forall|x: u16| #![trigger spec_u16_to_le_bytes(x)]
        spec_u16_to_le_bytes(x).len() == 2 && spec_u16_from_le_bytes(spec_u16_to_le_bytes(x)) == x by {
        assert(spec_u16_to_le_bytes(x).len() == 2);
    }
}

// ---------------------------------------------------------------------------
// Block header
// ---------------------------------------------------------------------------

/// The common 24-byte header of every MDF block.
pub struct BlockHeader {
    /// 4-byte block identifier such as `##HD`
    pub id: String,
    /// Reserved, written as stored
    pub reserved0: u32,
    /// Total length of the block including this header
    pub block_len: u64,
    /// Number of links in the block
    pub links_nr: u64,
}

/// The 4-byte identifier field: the UTF-8 bytes of `id`, truncated or
/// zero-padded to 4 bytes.
pub open spec fn id_field(id: Seq<char>) -> Seq<u8> {
    let b = encode_utf8(id);
    if b.len() >= 4 {
        b.subrange(0, 4)
    } else {
        b + zeros((4 - b.len()) as nat)
    }
}

/// The 24 bytes that encode a block header.
pub open spec fn header_bytes(id: Seq<char>, reserved0: u32, block_len: u64, links_nr: u64) -> Seq<
    u8,
> {
    id_field(id) + spec_u32_to_le_bytes(reserved0) + spec_u64_to_le_bytes(block_len)
        + spec_u64_to_le_bytes(links_nr)
}

impl BlockHeader {
    /// The 24 bytes that encode this header.
    pub open spec fn spec_bytes(&self) -> Seq<u8> {
        header_bytes(self.id@, self.reserved0, self.block_len, self.links_nr)
    }

    /// Whether this header is what `from_bytes` reads from the first 24
    /// bytes of `b`.
    pub open spec fn parsed_from(&self, b: Seq<u8>) -> bool {
        &&& b.len() >= 24
        &&& self.id@ == lossy_utf8(b.subrange(0, 4))
        &&& self.reserved0 == u32_at(b, 4)
        &&& self.block_len == u64_at(b, 8)
        &&& self.links_nr == u64_at(b, 16)
    }

    /// Serializes the header: the identifier truncated or zero-padded to 4
    /// bytes, then `reserved0`, `block_len` and `links_nr` in little-endian.
    /// This never fails.
    pub fn to_bytes(&self) -> (r: Result<Vec<u8>>)
        ensures
            r matches Ok(b) && b@ == self.spec_bytes(),
            self.spec_bytes().len() == 24,
    {
        let mut buffer: Vec<u8> = Vec::with_capacity(24);
        let id_bytes = self.id.as_str().as_bytes();
        let id_len: usize = if id_bytes.len() < 4 { id_bytes.len() } else { 4 };
        push_slice(&mut buffer, slice_subrange(id_bytes, 0, id_len));
        push_zeros(&mut buffer, 4 - id_len);
        proof {
            let b = encode_utf8(self.id@);
            if b.len() >= 4 {
                assert(buffer@ =~= id_field(self.id@));
            } else {
                assert(b.subrange(0, b.len() as int) =~= b);
                assert(buffer@ =~= id_field(self.id@));
            }
        }
        push_u32_le(&mut buffer, self.reserved0);
        push_u64_le(&mut buffer, self.block_len);
        push_u64_le(&mut buffer, self.links_nr);
        proof {
            lemma_le_roundtrips();
        }
        Ok(buffer)
    }

    /// Parses a block header from the first 24 bytes of `bytes`; fails with
    /// [`Error::TooShortBuffer`] exactly when fewer than 24 bytes are given.
    pub fn from_bytes(bytes: &[u8]) -> (r: Result<Self>)
        ensures
            bytes@.len() >= 24 <==> r is Ok,
            r matches Ok(h) ==> h.parsed_from(bytes@),
            r matches Err(e) ==> e matches Error::TooShortBuffer { actual, expected, .. } && actual
                == bytes@.len() && expected == 24,
    {
        if bytes.len() < 24 {
            return Err(Error::TooShortBuffer {
                actual: bytes.len(),
                expected: 24,
                file: "blocks/common.rs",
                line: 0,
            });
        }
        Ok(BlockHeader {
            id: utf8_lossy(slice_subrange(bytes, 0, 4)),
            reserved0: read_u32_at(bytes, 4),
            block_len: read_u64_at(bytes, 8),
            links_nr: read_u64_at(bytes, 16),
        })
    }
}

/// Law: a header whose identifier encodes to exactly 4 bytes is read back
/// unchanged from its own serialization.
pub proof fn lemma_block_header_roundtrip(id: Seq<char>, reserved0: u32, block_len: u64, links_nr: u64)
    requires
        encode_utf8(id).len() == 4,
    ensures
        ({
            let b = header_bytes(id, reserved0, block_len, links_nr);
            &&& b.len() == 24
            &&& lossy_utf8(b.subrange(0, 4)) == id
            &&& u32_at(b, 4) == reserved0
            &&& u64_at(b, 8) == block_len
            &&& u64_at(b, 16) == links_nr
        }),
{
    lemma_le_roundtrips();
    let b = header_bytes(id, reserved0, block_len, links_nr);
    let e = encode_utf8(id);
    assert(e.subrange(0, 4) =~= e);
    assert(b.subrange(0, 4) =~= e);
    vstd::utf8::encode_utf8_valid_utf8(id);
    vstd::utf8::encode_utf8_decode_utf8(id);
    assert(b.subrange(4, 8) =~= spec_u32_to_le_bytes(reserved0));
    assert(b.subrange(8, 16) =~= spec_u64_to_le_bytes(block_len));
    assert(b.subrange(16, 24) =~= spec_u64_to_le_bytes(links_nr));
}

} // verus!

verus! {

// ---------------------------------------------------------------------------
// Block parsing
// ---------------------------------------------------------------------------

/// Blocks that can be parsed from bytes starting at their header.
pub trait BlockParse: Sized {
    /// The identifier that the block's header must carry.
    spec fn spec_id() -> Seq<char>;

    /// The identifier that the block's header must carry, such as `##HD`.
    fn block_id() -> (r: &'static str)
        ensures
            r@ == Self::spec_id(),
    ;

    /// Reads the header from the first 24 bytes and checks its identifier;
    /// fails with [`Error::BlockIDError`] exactly when the identifier read
    /// differs from [`BlockParse::block_id`].
    fn parse_header(bytes: &[u8]) -> (r: Result<BlockHeader>)
        requires
            bytes@.len() >= 24,
        ensures
            r matches Ok(h) ==> h.parsed_from(bytes@) && h.id@ == Self::spec_id(),
            r is Err <==> lossy_utf8(bytes@.subrange(0, 4)) != Self::spec_id(),
            r matches Err(e) ==> e matches Error::BlockIDError { actual, expected } && actual@
                == lossy_utf8(bytes@.subrange(0, 4)) && expected@ == Self::spec_id(),
    {
        let header = match BlockHeader::from_bytes(slice_subrange(bytes, 0, 24)) {
            Ok(h) => h,
            Err(e) => {
                return Err(e);
            },
        };
        proof {
            assert(bytes@.subrange(0, 24).subrange(0, 4) =~= bytes@.subrange(0, 4));
            assert(bytes@.subrange(0, 24).subrange(4, 8) =~= bytes@.subrange(4, 8));
            assert(bytes@.subrange(0, 24).subrange(8, 16) =~= bytes@.subrange(8, 16));
            assert(bytes@.subrange(0, 24).subrange(16, 24) =~= bytes@.subrange(16, 24));
        }
        let id = Self::block_id();
        if !crate::text::str_eq(header.id.as_str(), id) {
            return Err(Error::BlockIDError {
                actual: header.id.clone(),
                expected: String::from_str(id),
            });
        }
        Ok(header)
    }

    /// Parses the whole block.
    fn from_bytes(bytes: &[u8]) -> Result<Self>;
}

// ---------------------------------------------------------------------------
// Data types
// ---------------------------------------------------------------------------

/// Channel data types of MDF 4.1.
#[derive(Debug, Clone, Copy, PartialEq)]
pub enum DataType {
    UnsignedIntegerLE,
    UnsignedIntegerBE,
    SignedIntegerLE,
    SignedIntegerBE,
    FloatLE,
    FloatBE,
    StringLatin1,
    StringUtf8,
    StringUtf16LE,
    StringUtf16BE,
    ByteArray,
    MimeSample,
    MimeStream,
    CanOpenDate,
    CanOpenTime,
    ComplexLE,
    ComplexBE,
    Unknown(()),
}

/// The numeric code of a data type in MDF 4.1 (`Unknown` is written as 0).
pub open spec fn data_type_code(d: DataType) -> u8 {
    match d {
        DataType::UnsignedIntegerLE => 0,
        DataType::UnsignedIntegerBE => 1,
        DataType::SignedIntegerLE => 2,
        DataType::SignedIntegerBE => 3,
        DataType::FloatLE => 4,
        DataType::FloatBE => 5,
        DataType::StringLatin1 => 6,
        DataType::StringUtf8 => 7,
        DataType::StringUtf16LE => 8,
        DataType::StringUtf16BE => 9,
        DataType::ByteArray => 10,
        DataType::MimeSample => 11,
        DataType::MimeStream => 12,
        DataType::CanOpenDate => 13,
        DataType::CanOpenTime => 14,
        DataType::ComplexLE => 15,
        DataType::ComplexBE => 16,
        DataType::Unknown(_) => 0,
    }
}

/// The data type of a numeric code; codes above 16 are `Unknown`.
pub open spec fn data_type_of_code(v: u8) -> DataType {
    if v == 0 {
        DataType::UnsignedIntegerLE
    } else if v == 1 {
        DataType::UnsignedIntegerBE
    } else if v == 2 {
        DataType::SignedIntegerLE
    } else if v == 3 {
        DataType::SignedIntegerBE
    } else if v == 4 {
        DataType::FloatLE
    } else if v == 5 {
        DataType::FloatBE
    } else if v == 6 {
        DataType::StringLatin1
    } else if v == 7 {
        DataType::StringUtf8
    } else if v == 8 {
        DataType::StringUtf16LE
    } else if v == 9 {
        DataType::StringUtf16BE
    } else if v == 10 {
        DataType::ByteArray
    } else if v == 11 {
        DataType::MimeSample
    } else if v == 12 {
        DataType::MimeStream
    } else if v == 13 {
        DataType::CanOpenDate
    } else if v == 14 {
        DataType::CanOpenTime
    } else if v == 15 {
        DataType::ComplexLE
    } else if v == 16 {
        DataType::ComplexBE
    } else {
        DataType::Unknown(())
    }
}

/// The typical bit width of a data type.
pub open spec fn data_type_default_bits(d: DataType) -> u32 {
    match d {
        DataType::UnsignedIntegerLE | DataType::UnsignedIntegerBE | DataType::SignedIntegerLE
        | DataType::SignedIntegerBE => 32,
        DataType::FloatLE | DataType::FloatBE => 32,
        DataType::StringLatin1 | DataType::StringUtf8 | DataType::StringUtf16LE
        | DataType::StringUtf16BE | DataType::ByteArray | DataType::MimeSample
        | DataType::MimeStream => 8,
        DataType::CanOpenDate | DataType::CanOpenTime => 64,
        DataType::ComplexLE | DataType::ComplexBE => 64,
        DataType::Unknown(_) => 8,
    }
}

impl DataType {
    /// The MDF 4.1 code of this data type (`Unknown` gives 0).
    pub fn to_u8(&self) -> (r: u8)
        ensures
            r == data_type_code(*self),
    {
        match self {
            DataType::UnsignedIntegerLE => 0,
            DataType::UnsignedIntegerBE => 1,
            DataType::SignedIntegerLE => 2,
            DataType::SignedIntegerBE => 3,
            DataType::FloatLE => 4,
            DataType::FloatBE => 5,
            DataType::StringLatin1 => 6,
            DataType::StringUtf8 => 7,
            DataType::StringUtf16LE => 8,
            DataType::StringUtf16BE => 9,
            DataType::ByteArray => 10,
            DataType::MimeSample => 11,
            DataType::MimeStream => 12,
            DataType::CanOpenDate => 13,
            DataType::CanOpenTime => 14,
            DataType::ComplexLE => 15,
            DataType::ComplexBE => 16,
            DataType::Unknown(_) => 0,
        }
    }

    /// The data type of an MDF 4.1 code; values above 16 give `Unknown`.
    pub fn from_u8(value: u8) -> (r: Self)
        ensures
            r == data_type_of_code(value),
    {
        match value {
            0 => DataType::UnsignedIntegerLE,
            1 => DataType::UnsignedIntegerBE,
            2 => DataType::SignedIntegerLE,
            3 => DataType::SignedIntegerBE,
            4 => DataType::FloatLE,
            5 => DataType::FloatBE,
            6 => DataType::StringLatin1,
            7 => DataType::StringUtf8,
            8 => DataType::StringUtf16LE,
            9 => DataType::StringUtf16BE,
            10 => DataType::ByteArray,
            11 => DataType::MimeSample,
            12 => DataType::MimeStream,
            13 => DataType::CanOpenDate,
            14 => DataType::CanOpenTime,
            15 => DataType::ComplexLE,
            16 => DataType::ComplexBE,
            _ => DataType::Unknown(()),
        }
    }

    /// A typical bit width for this data type, used when a channel is
    /// created without an explicit bit count.
    pub fn default_bits(&self) -> (r: u32)
        ensures
            r == data_type_default_bits(*self),
    {
        match self {
            DataType::UnsignedIntegerLE | DataType::UnsignedIntegerBE | DataType::SignedIntegerLE
            | DataType::SignedIntegerBE => 32,
            DataType::FloatLE | DataType::FloatBE => 32,
            DataType::StringLatin1 | DataType::StringUtf8 | DataType::StringUtf16LE
            | DataType::StringUtf16BE | DataType::ByteArray | DataType::MimeSample
            | DataType::MimeStream => 8,
            DataType::CanOpenDate | DataType::CanOpenTime => 64,
            DataType::ComplexLE | DataType::ComplexBE => 64,
            DataType::Unknown(_) => 8,
        }
    }
}

/// Law: the data type codes are those of the MDF 4.1 standard (`cn_data_type`):
/// 0/1 unsigned integer little/big endian, 2/3 signed integer, 4/5 IEEE 754
/// floating point little/big endian, 6 to 9 strings (ISO-8859-1, UTF-8,
/// UTF-16 little/big endian), 10 byte array, 11/12 MIME sample/stream,
/// 13/14 CANopen date/time, 15/16 complex number little/big endian; and
/// each of these codes reads back as its type.
pub proof fn lemma_data_type_codes_are_mdf()
    ensures
        data_type_code(DataType::UnsignedIntegerLE) == 0 && data_type_of_code(0) == DataType::UnsignedIntegerLE,
        data_type_code(DataType::UnsignedIntegerBE) == 1 && data_type_of_code(1) == DataType::UnsignedIntegerBE,
        data_type_code(DataType::SignedIntegerLE) == 2 && data_type_of_code(2) == DataType::SignedIntegerLE,
        data_type_code(DataType::SignedIntegerBE) == 3 && data_type_of_code(3) == DataType::SignedIntegerBE,
        data_type_code(DataType::FloatLE) == 4 && data_type_of_code(4) == DataType::FloatLE,
        data_type_code(DataType::FloatBE) == 5 && data_type_of_code(5) == DataType::FloatBE,
        data_type_code(DataType::StringLatin1) == 6 && data_type_of_code(6) == DataType::StringLatin1,
        data_type_code(DataType::StringUtf8) == 7 && data_type_of_code(7) == DataType::StringUtf8,
        data_type_code(DataType::StringUtf16LE) == 8 && data_type_of_code(8) == DataType::StringUtf16LE,
        data_type_code(DataType::StringUtf16BE) == 9 && data_type_of_code(9) == DataType::StringUtf16BE,
        data_type_code(DataType::ByteArray) == 10 && data_type_of_code(10) == DataType::ByteArray,
        data_type_code(DataType::MimeSample) == 11 && data_type_of_code(11) == DataType::MimeSample,
        data_type_code(DataType::MimeStream) == 12 && data_type_of_code(12) == DataType::MimeStream,
        data_type_code(DataType::CanOpenDate) == 13 && data_type_of_code(13) == DataType::CanOpenDate,
        data_type_code(DataType::CanOpenTime) == 14 && data_type_of_code(14) == DataType::CanOpenTime,
        data_type_code(DataType::ComplexLE) == 15 && data_type_of_code(15) == DataType::ComplexLE,
        data_type_code(DataType::ComplexBE) == 16 && data_type_of_code(16) == DataType::ComplexBE,
{
}

/// Law: decoding the code of a known data type gives it back, and every
/// code up to 16 is the code of the type it decodes to.
pub proof fn lemma_data_type_code_roundtrip(d: DataType, v: u8)
    ensures
        !(d is Unknown) ==> data_type_of_code(data_type_code(d)) == d,
        v <= 16 ==> data_type_code(data_type_of_code(v)) == v,
        v > 16 ==> data_type_of_code(v) is Unknown,
{
}

} // verus!

verus! {

/// A four-character ASCII identifier encodes to exactly four bytes.
pub proof fn lemma_ascii_id_len(id: Seq<char>)
    requires
        id.len() == 4,
        vstd::utf8::is_ascii_chars(id),
    ensures
        encode_utf8(id).len() == 4,
{
    vstd::utf8::is_ascii_chars_encode_utf8(id);
}

/// The first 24 bytes of a block's serialization, when they are its header
/// with a four-byte identifier, are read back as that header.
pub proof fn lemma_header_prefix(h: BlockHeader, b: Seq<u8>)
    requires
        encode_utf8(h.id@).len() == 4,
        b.len() >= 24,
        b.subrange(0, 24) == h.spec_bytes(),
    ensures
        h.parsed_from(b),
{
    lemma_block_header_roundtrip(h.id@, h.reserved0, h.block_len, h.links_nr);
    let hb = h.spec_bytes();
    assert(b.subrange(0, 4) =~= hb.subrange(0, 4));
    assert(b.subrange(4, 8) =~= hb.subrange(4, 8));
    assert(b.subrange(8, 16) =~= hb.subrange(8, 16));
    assert(b.subrange(16, 24) =~= hb.subrange(16, 24));
}

} // verus!

verus! {

/// An `i16` survives the round trip through its `u16` bit pattern.
pub proof fn lemma_i16_bits(x: i16)
    ensures
        (x as u16) as i16 == x,
{
    assert((x as u16) as i16 == x) by (bit_vector);
}

} // verus!
