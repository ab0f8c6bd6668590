//! The conversion block (`##CC`): rules that turn raw channel values into
//! physical values or text. Floating-point parameters are held as their
//! IEEE-754 bit patterns.
use crate::blocks::common::{
    lemma_le_roundtrips, push_u16_le, push_u64_le, read_u16_at, read_u64_at, u16_at, u64_at,
    BlockHeader, BlockParse,
};
use crate::error::{Error, Result};
use crate::text::lossy_utf8;
use vstd::bytes::*;
use vstd::prelude::*;

verus! {

/// The identifier `##CC`.
pub open spec fn cc_id() -> Seq<char> {
    seq!['#', '#', 'C', 'C']
}

/// Conversion types of MDF 4.1.
#[derive(Debug, Clone, Copy, PartialEq, Eq, Structural)]
pub enum ConversionType {
    Identity,
    Linear,
    Rational,
    Algebraic,
    TableLookupInterp,
    TableLookupNoInterp,
    RangeLookup,
    ValueToText,
    RangeToText,
    TextToValue,
    TextToText,
    BitfieldText,
    Unknown(u8),
}

/// The numeric code of a conversion type.
pub open spec fn conversion_type_code(t: ConversionType) -> u8 {
    match t {
        ConversionType::Identity => 0,
        ConversionType::Linear => 1,
        ConversionType::Rational => 2,
        ConversionType::Algebraic => 3,
        ConversionType::TableLookupInterp => 4,
        ConversionType::TableLookupNoInterp => 5,
        ConversionType::RangeLookup => 6,
        ConversionType::ValueToText => 7,
        ConversionType::RangeToText => 8,
        ConversionType::TextToValue => 9,
        ConversionType::TextToText => 10,
        ConversionType::BitfieldText => 11,
        ConversionType::Unknown(v) => v,
    }
}

/// The conversion type of a numeric code; codes above 11 are `Unknown`.
pub open spec fn conversion_type_of_code(v: u8) -> ConversionType {
    if v == 0 {
        ConversionType::Identity
    } else if v == 1 {
        ConversionType::Linear
    } else if v == 2 {
        ConversionType::Rational
    } else if v == 3 {
        ConversionType::Algebraic
    } else if v == 4 {
        ConversionType::TableLookupInterp
    } else if v == 5 {
        ConversionType::TableLookupNoInterp
    } else if v == 6 {
        ConversionType::RangeLookup
    } else if v == 7 {
        ConversionType::ValueToText
    } else if v == 8 {
        ConversionType::RangeToText
    } else if v == 9 {
        ConversionType::TextToValue
    } else if v == 10 {
        ConversionType::TextToText
    } else if v == 11 {
        ConversionType::BitfieldText
    } else {
        ConversionType::Unknown(v)
    }
}

impl ConversionType {
    /// The MDF 4.1 code of this conversion type.
    pub fn to_u8(&self) -> (r: u8)
        ensures
            r == conversion_type_code(*self),
    {
        match self {
            ConversionType::Identity => 0,
            ConversionType::Linear => 1,
            ConversionType::Rational => 2,
            ConversionType::Algebraic => 3,
            ConversionType::TableLookupInterp => 4,
            ConversionType::TableLookupNoInterp => 5,
            ConversionType::RangeLookup => 6,
            ConversionType::ValueToText => 7,
            ConversionType::RangeToText => 8,
            ConversionType::TextToValue => 9,
            ConversionType::TextToText => 10,
            ConversionType::BitfieldText => 11,
            ConversionType::Unknown(v) => *v,
        }
    }

    /// The conversion type of an MDF 4.1 code.
    pub fn from_u8(v: u8) -> (r: Self)
        ensures
            r == conversion_type_of_code(v),
    {
        match v {
            0 => ConversionType::Identity,
            1 => ConversionType::Linear,
            2 => ConversionType::Rational,
            3 => ConversionType::Algebraic,
            4 => ConversionType::TableLookupInterp,
            5 => ConversionType::TableLookupNoInterp,
            6 => ConversionType::RangeLookup,
            7 => ConversionType::ValueToText,
            8 => ConversionType::RangeToText,
            9 => ConversionType::TextToValue,
            10 => ConversionType::TextToText,
            11 => ConversionType::BitfieldText,
            _ => ConversionType::Unknown(v),
        }
    }
}

/// An MDF conversion block. Floating-point values (`cc_phy_range_*`,
/// `cc_val`) are stored as the bit patterns of 64-bit IEEE-754 numbers.
pub struct ConversionBlock {
    pub header: BlockHeader,
    pub cc_tx_name: Option<u64>,
    pub cc_md_unit: Option<u64>,
    pub cc_md_comment: Option<u64>,
    pub cc_cc_inverse: Option<u64>,
    pub cc_ref: Vec<u64>,
    pub cc_type: ConversionType,
    pub cc_precision: u8,
    pub cc_flags: u16,
    pub cc_ref_count: u16,
    pub cc_val_count: u16,
    pub cc_phy_range_min: Option<u64>,
    pub cc_phy_range_max: Option<u64>,
    pub cc_val: Vec<u64>,
    pub formula: Option<String>,
    /// Texts resolved for entries of `cc_ref`, by index.
    pub resolved_texts: Option<Vec<(usize, String)>>,
    /// Nested conversions resolved for entries of `cc_ref`, by index.
    pub resolved_conversions: Option<Vec<(usize, Box<ConversionBlock>)>>,
    /// The fallback conversion of a range-to-text table.
    pub default_conversion: Option<Box<ConversionBlock>>,
}

/// A link as stored: `None` is written as address 0.
pub open spec fn link_value(l: Option<u64>) -> u64 {
    match l {
        Some(a) => a,
        None => 0,
    }
}

/// A link as read: address 0 means no link.
pub open spec fn link_of(a: u64) -> Option<u64> {
    if a == 0 {
        None
    } else {
        Some(a)
    }
}

/// The concatenated little-endian encodings of a sequence of `u64`.
pub open spec fn u64s_bytes(s: Seq<u64>) -> Seq<u8>
    decreases s.len(),
{
    if s.len() == 0 {
        Seq::empty()
    } else {
        u64s_bytes(s.drop_last()) + spec_u64_to_le_bytes(s.last())
    }
}

/// The encoding of `s` has eight bytes per element.
pub proof fn lemma_u64s_bytes_len(s: Seq<u64>)
    ensures
        u64s_bytes(s).len() == 8 * s.len(),
    decreases s.len(),
{
    lemma_le_roundtrips();
    if s.len() > 0 {
        lemma_u64s_bytes_len(s.drop_last());
    }
}

/// Element `i` of `s` is stored at offset `8 * i` of its encoding.
pub proof fn lemma_u64s_bytes_index(s: Seq<u64>, i: int)
    requires
        0 <= i < s.len(),
    ensures
        u64s_bytes(s).len() == 8 * s.len(),
        u64_at(u64s_bytes(s), 8 * i) == s[i],
    decreases s.len(),
{
    lemma_le_roundtrips();
    lemma_u64s_bytes_len(s);
    lemma_u64s_bytes_len(s.drop_last());
    let b = u64s_bytes(s);
    if i == s.len() - 1 {
        assert(b.subrange(8 * i, 8 * i + 8) =~= spec_u64_to_le_bytes(s.last()));
    } else {
        lemma_u64s_bytes_index(s.drop_last(), i);
        let p = u64s_bytes(s.drop_last());
        assert(b.subrange(8 * i, 8 * i + 8) =~= p.subrange(8 * i, 8 * i + 8));
    }
}

/// Reads the little-endian `u64` at `*offset` and advances the offset, or
/// fails with [`Error::TooShortBuffer`] exactly when fewer than eight bytes
/// remain.
pub fn read_u64(bytes: &[u8], offset: &mut usize) -> (r: Result<u64>)
    ensures
        r is Ok <==> *old(offset) + 8 <= bytes@.len(),
        r matches Ok(v) ==> v == u64_at(bytes@, *old(offset) as int) && *final(offset) == *old(
            offset,
        ) + 8,
        r is Err ==> *final(offset) == *old(offset),
        r matches Err(e) ==> e is TooShortBuffer,
{
    if bytes.len() < 8 || *offset > bytes.len() - 8 {
        let expected = if *offset <= usize::MAX - 8 { *offset + 8 } else { usize::MAX };
        return Err(Error::TooShortBuffer {
            actual: bytes.len(),
            expected,
            file: "blocks/conversion.rs",
            line: 0,
        });
    }
    let v = read_u64_at(bytes, *offset);
    *offset = *offset + 8;
    Ok(v)
}

/// Reads the link at `*offset` (address 0 meaning no link) and advances the
/// offset by eight.
pub fn read_link(bytes: &[u8], offset: &mut usize) -> (r: Option<u64>)
    requires
        *old(offset) + 8 <= bytes.len(),
    ensures
        r == link_of(u64_at(bytes@, *old(offset) as int)),
        *final(offset) == *old(offset) + 8,
{
    let link = read_u64_at(bytes, *offset);
    *offset = *offset + 8;
    if link == 0 {
        None
    } else {
        Some(link)
    }
}

impl ConversionBlock {
    /// Whether the physical range is written (either bound present).
    pub open spec fn has_range(&self) -> bool {
        self.cc_phy_range_min is Some || self.cc_phy_range_max is Some
    }

    /// The number of bytes of this block's serialization.
    pub open spec fn spec_size(&self) -> int {
        24 + (4 + self.cc_ref@.len()) * 8 + 8 + (if self.has_range() {
            16int
        } else {
            0int
        }) + self.cc_val@.len() * 8
    }

    /// The bytes that encode this block; the header's link count and length
    /// are recomputed from the contents.
    pub open spec fn spec_bytes(&self) -> Seq<u8> {
        crate::blocks::common::header_bytes(
            self.header.id@,
            self.header.reserved0,
            self.spec_size() as u64,
            (4 + self.cc_ref@.len()) as u64,
        ) + spec_u64_to_le_bytes(link_value(self.cc_tx_name)) + spec_u64_to_le_bytes(
            link_value(self.cc_md_unit),
        ) + spec_u64_to_le_bytes(link_value(self.cc_md_comment)) + spec_u64_to_le_bytes(
            link_value(self.cc_cc_inverse),
        ) + u64s_bytes(self.cc_ref@) + seq![conversion_type_code(self.cc_type), self.cc_precision]
            + spec_u16_to_le_bytes(self.cc_flags) + spec_u16_to_le_bytes(self.cc_ref_count)
            + spec_u16_to_le_bytes(self.cc_val_count) + (if self.has_range() {
            spec_u64_to_le_bytes(link_value(self.cc_phy_range_min)) + spec_u64_to_le_bytes(
                link_value(self.cc_phy_range_max),
            )
        } else {
            Seq::empty()
        }) + u64s_bytes(self.cc_val@)
    }

    /// Serializes the block, recomputing the link count (four fixed links
    /// plus `cc_ref`) and the block length; missing range bounds are written
    /// as zero when the other bound is present. This never fails.
    #[verifier::rlimit(60)]
    #[verifier::spinoff_prover]
    pub fn to_bytes(&self) -> (r: Result<Vec<u8>>)
        requires
            self.spec_size() <= usize::MAX,
        ensures
            r matches Ok(b) && b@ == self.spec_bytes() && b@.len() == self.spec_size(),
    {
        let links = 4 + self.cc_ref.len();
        let has_range = self.cc_phy_range_min.is_some() || self.cc_phy_range_max.is_some();
        let mut size = 24 + links * 8 + 1 + 1 + 2 + 2 + 2;
        if has_range {
            size = size + 16;
        }
        size = size + self.cc_val.len() * 8;
        let header = BlockHeader {
            id: self.header.id.clone(),
            reserved0: self.header.reserved0,
            block_len: size as u64,
            links_nr: links as u64,
        };
        let mut buf: Vec<u8> = match header.to_bytes() {
            Ok(b) => b,
            Err(e) => {
                return Err(e);
            },
        };
        push_u64_le(&mut buf, match self.cc_tx_name { Some(a) => a, None => 0 });
        push_u64_le(&mut buf, match self.cc_md_unit { Some(a) => a, None => 0 });
        push_u64_le(&mut buf, match self.cc_md_comment { Some(a) => a, None => 0 });
        push_u64_le(&mut buf, match self.cc_cc_inverse { Some(a) => a, None => 0 });
        let ghost before_refs = buf@;
        let mut i: usize = 0;
        while i < self.cc_ref.len()
            invariant
                i <= self.cc_ref@.len(),
                buf@ == before_refs + u64s_bytes(self.cc_ref@.subrange(0, i as int)),
            decreases self.cc_ref@.len() - i,
        {
            push_u64_le(&mut buf, self.cc_ref[i]);
            proof {
                assert(self.cc_ref@.subrange(0, i + 1).drop_last() =~= self.cc_ref@.subrange(
                    0,
                    i as int,
                ));
            }
            i = i + 1;
        }
        assert(self.cc_ref@.subrange(0, i as int) =~= self.cc_ref@);
        buf.push(self.cc_type.to_u8());
        buf.push(self.cc_precision);
        push_u16_le(&mut buf, self.cc_flags);
        push_u16_le(&mut buf, self.cc_ref_count);
        push_u16_le(&mut buf, self.cc_val_count);
        let ghost before_range = buf@;
        if has_range {
            push_u64_le(&mut buf, match self.cc_phy_range_min { Some(a) => a, None => 0 });
            push_u64_le(&mut buf, match self.cc_phy_range_max { Some(a) => a, None => 0 });
        }
        let ghost before_vals = buf@;
        let mut j: usize = 0;
        while j < self.cc_val.len()
            invariant
                j <= self.cc_val@.len(),
                buf@ == before_vals + u64s_bytes(self.cc_val@.subrange(0, j as int)),
            decreases self.cc_val@.len() - j,
        {
            push_u64_le(&mut buf, self.cc_val[j]);
            proof {
                assert(self.cc_val@.subrange(0, j + 1).drop_last() =~= self.cc_val@.subrange(
                    0,
                    j as int,
                ));
            }
            j = j + 1;
        }
        assert(self.cc_val@.subrange(0, j as int) =~= self.cc_val@);
        proof {
            lemma_le_roundtrips();
            lemma_u64s_bytes_len(self.cc_ref@);
            lemma_u64s_bytes_len(self.cc_val@);
            assert(buf@ =~= self.spec_bytes());
        }
        Ok(buf)
    }
}

} // verus!

verus! {

/// The number of `cc_ref` links a conversion block header announces.
pub open spec fn cc_ref_links(b: Seq<u8>) -> int {
    let n = u64_at(b, 16) as int;
    if n > 4 {
        n - 4
    } else {
        0
    }
}

/// Offset of the data section (after all links) of a conversion block.
pub open spec fn cc_data_start(b: Seq<u8>) -> int {
    56 + 8 * cc_ref_links(b)
}

/// The value count stored in a conversion block.
pub open spec fn cc_val_count_of(b: Seq<u8>) -> u16 {
    u16_at(b, cc_data_start(b) + 6)
}

/// Whether a conversion block carries the physical range: its stated length
/// leaves room for it (some writers store it without setting the flag).
pub open spec fn cc_has_range_of(b: Seq<u8>) -> bool {
    let size_without_range = 24 + (u64_at(b, 16) as usize as int) * 8 + 8 + (cc_val_count_of(b)
        as int) * 8;
    (u64_at(b, 8) as usize as int) >= size_without_range + 16
}

/// The number of bytes a conversion block occupies as parsed.
pub open spec fn cc_parsed_len(b: Seq<u8>) -> int {
    cc_data_start(b) + 8 + (if cc_has_range_of(b) {
        16int
    } else {
        0int
    }) + 8 * (cc_val_count_of(b) as int)
}

impl ConversionBlock {
    /// Whether this block is what `from_bytes` reads from `b`.
    pub open spec fn parsed_from(&self, b: Seq<u8>) -> bool {
        &&& self.fields_parsed_from(b)
        &&& self.formula is None
        &&& self.resolved_texts is None
        &&& self.resolved_conversions is None
        &&& self.default_conversion is None
    }

    /// Whether every field stored in the block's bytes is what `from_bytes`
    /// reads from `b` (the formula and the resolved references aside).
    pub open spec fn fields_parsed_from(&self, b: Seq<u8>) -> bool {
        let d = cc_data_start(b);
        let r = d + 8;
        let v = if cc_has_range_of(b) {
            r + 16
        } else {
            r
        };
        &&& b.len() >= cc_parsed_len(b)
        &&& self.header.parsed_from(b)
        &&& self.cc_tx_name == link_of(u64_at(b, 24))
        &&& self.cc_md_unit == link_of(u64_at(b, 32))
        &&& self.cc_md_comment == link_of(u64_at(b, 40))
        &&& self.cc_cc_inverse == link_of(u64_at(b, 48))
        &&& self.cc_ref@ == Seq::new(cc_ref_links(b) as nat, |k: int| u64_at(b, 56 + 8 * k))
        &&& self.cc_type == conversion_type_of_code(b[d])
        &&& self.cc_precision == b[d + 1]
        &&& self.cc_flags == u16_at(b, d + 2)
        &&& self.cc_ref_count == u16_at(b, d + 4)
        &&& self.cc_val_count == cc_val_count_of(b)
        &&& self.cc_phy_range_min == (if cc_has_range_of(b) {
            Some(u64_at(b, r))
        } else {
            None
        })
        &&& self.cc_phy_range_max == (if cc_has_range_of(b) {
            Some(u64_at(b, r + 8))
        } else {
            None
        })
        &&& self.cc_val@ == Seq::new(cc_val_count_of(b) as nat, |k: int| u64_at(b, v + 8 * k))
    }
}

/// Reads `count` consecutive little-endian `u64` starting at `*offset`,
/// advancing the offset; fails with [`Error::TooShortBuffer`] exactly when
/// the bytes run out.
fn read_u64_run(bytes: &[u8], offset: &mut usize, count: u64) -> (r: Result<Vec<u64>>)
    ensures
        r is Ok <==> count == 0 || *old(offset) + 8 * count <= bytes@.len(),
        r matches Ok(v) ==> v@ == Seq::new(
            count as nat,
            |k: int| u64_at(bytes@, *old(offset) + 8 * k),
        ) && *final(offset) == *old(offset) + 8 * count,
        r matches Err(e) ==> e is TooShortBuffer,
{
    let ghost start = *offset;
    let mut out: Vec<u64> = Vec::new();
    let mut i: u64 = 0;
    while i < count
        invariant
            i <= count,
            start == *old(offset),
            *offset == start + 8 * i,
            i > 0 ==> start + 8 * i <= bytes@.len(),
            out@ == Seq::new(i as nat, |k: int| u64_at(bytes@, start + 8 * k)),
        decreases count - i,
    {
        match read_u64(bytes, offset) {
            Ok(v) => {
                out.push(v);
                assert(out@ =~= Seq::new((i + 1) as nat, |k: int| u64_at(bytes@, start + 8 * k)));
            },
            Err(e) => {
                assert(start + 8 * i + 8 > bytes@.len());
                assert(start + 8 * count >= start + 8 * i + 8);
                assert(start == *old(offset));
                return Err(e);
            },
        }
        i = i + 1;
    }
    Ok(out)
}

impl BlockParse for ConversionBlock {
    open spec fn spec_id() -> Seq<char> {
        cc_id()
    }

    fn block_id() -> (r: &'static str) {
        proof {
            reveal_strlit("##CC");
        }
        "##CC"
    }

    /// Parses a conversion block: the four fixed links, the `cc_ref` links
    /// the header announces, the type, precision, flags and counts, the
    /// physical range when the stated block length leaves room for it, and
    /// the values. Fails with [`Error::BlockIDError`] when the identifier is
    /// not `##CC` and with [`Error::TooShortBuffer`] when the bytes end early.
    fn from_bytes(bytes: &[u8]) -> (r: Result<Self>)
        ensures
            bytes@.len() >= 24 ==> (r is Ok <==> lossy_utf8(bytes@.subrange(0, 4)) == cc_id()
                && bytes@.len() >= cc_parsed_len(bytes@)),
            r matches Ok(cc) ==> cc.parsed_from(bytes@),
            bytes@.len() >= 24 && lossy_utf8(bytes@.subrange(0, 4)) != cc_id() ==> (r matches Err(
                e,
            ) && e is BlockIDError),
            bytes@.len() >= 24 && lossy_utf8(bytes@.subrange(0, 4)) == cc_id() && bytes@.len()
                < cc_parsed_len(bytes@) ==> (r matches Err(e) && e is TooShortBuffer),
            bytes@.len() < 24 ==> (r matches Err(e) && e is TooShortBuffer),
    {
        if bytes.len() < 24 {
            return Err(Error::TooShortBuffer {
                actual: bytes.len(),
                expected: 24,
                file: "blocks/conversion.rs",
                line: 0,
            });
        }
        let header = match Self::parse_header(bytes) {
            Ok(h) => h,
            Err(e) => {
                return Err(e);
            },
        };
        if bytes.len() < 56 {
            return Err(Error::TooShortBuffer {
                actual: bytes.len(),
                expected: 56,
                file: "blocks/conversion.rs",
                line: 0,
            });
        }
        let mut offset: usize = 24;
        let cc_tx_name = read_link(bytes, &mut offset);
        let cc_md_unit = read_link(bytes, &mut offset);
        let cc_md_comment = read_link(bytes, &mut offset);
        let cc_cc_inverse = read_link(bytes, &mut offset);
        let additional_links: u64 = if header.links_nr > 4 { header.links_nr - 4 } else { 0 };
        let cc_ref = match read_u64_run(bytes, &mut offset, additional_links) {
            Ok(v) => v,
            Err(e) => {
                return Err(e);
            },
        };
        if bytes.len() < 8 || offset > bytes.len() - 8 {
            return Err(Error::TooShortBuffer {
                actual: bytes.len(),
                expected: if offset <= usize::MAX - 8 { offset + 8 } else { usize::MAX },
                file: "blocks/conversion.rs",
                line: 0,
            });
        }
        let d = offset;
        let cc_type = ConversionType::from_u8(bytes[d]);
        let cc_precision = bytes[d + 1];
        let cc_flags = read_u16_at(bytes, d + 2);
        let cc_ref_count = read_u16_at(bytes, d + 4);
        let cc_val_count = read_u16_at(bytes, d + 6);
        offset = d + 8;
        let links_len: usize = #[verifier::truncate] (header.links_nr as usize);
        let size_without_range: u128 = 24 + (links_len as u128) * 8 + 8 + (cc_val_count as u128)
            * 8;
        let size_with_range: u128 = size_without_range + 16;
        let stated_len: usize = #[verifier::truncate] (header.block_len as usize);
        let has_range_data = (stated_len as u128) >= size_with_range;
        let mut cc_phy_range_min: Option<u64> = None;
        let mut cc_phy_range_max: Option<u64> = None;
        if has_range_data {
            match read_u64(bytes, &mut offset) {
                Ok(v) => {
                    cc_phy_range_min = Some(v);
                },
                Err(e) => {
                    return Err(e);
                },
            }
            match read_u64(bytes, &mut offset) {
                Ok(v) => {
                    cc_phy_range_max = Some(v);
                },
                Err(e) => {
                    return Err(e);
                },
            }
        }
        let cc_val = match read_u64_run(bytes, &mut offset, cc_val_count as u64) {
            Ok(v) => v,
            Err(e) => {
                return Err(e);
            },
        };
        Ok(ConversionBlock {
            header,
            cc_tx_name,
            cc_md_unit,
            cc_md_comment,
            cc_cc_inverse,
            cc_ref,
            cc_type,
            cc_precision,
            cc_flags,
            cc_ref_count,
            cc_val_count,
            cc_phy_range_min,
            cc_phy_range_max,
            cc_val,
            formula: None,
            resolved_texts: None,
            resolved_conversions: None,
            default_conversion: None,
        })
    }
}

} // verus!
