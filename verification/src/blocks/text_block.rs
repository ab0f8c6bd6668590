//! The text block (`##TX`) and the metadata block (`##MD`): NUL-terminated
//! strings padded to eight-byte alignment.
use crate::blocks::common::{
    push_slice, push_zeros, zeros, BlockHeader, BlockParse,
};
use crate::error::{Error, Result};
use crate::text::{concat3, decimal_string, lossy_utf8, str_eq, trim_char, trim_nul, utf8_lossy};
use vstd::prelude::*;
use vstd::slice::slice_subrange;
use vstd::string::StringExecFns;
use vstd::utf8::encode_utf8;

verus! {

/// The identifier `##TX`.
pub open spec fn tx_id() -> Seq<char> {
    seq!['#', '#', 'T', 'X']
}

/// The identifier `##MD`.
pub open spec fn md_id() -> Seq<char> {
    seq!['#', '#', 'M', 'D']
}

/// Whether a NUL terminator must be added after `b`.
pub open spec fn needs_null(b: Seq<u8>) -> bool {
    b.len() == 0 || b.last() != 0
}

/// The number of padding bytes that bring `n` to a multiple of eight.
pub open spec fn padding8(n: int) -> int {
    (8 - n % 8) % 8
}

/// The length of a text block holding the bytes `b`: header, text, NUL
/// terminator when `b` does not already end with one, and padding to a
/// multiple of eight.
pub open spec fn text_block_len(b: Seq<u8>) -> int {
    let unpadded = 24 + b.len() + (if needs_null(b) {
        1int
    } else {
        0int
    });
    unpadded + padding8(unpadded)
}

/// The bytes of the text block that [`TextBlock::new`] makes of `t`.
pub open spec fn text_block_image(t: Seq<char>) -> Seq<u8> {
    let b = encode_utf8(t);
    let unpadded = 24 + b.len() + (if needs_null(b) {
        1int
    } else {
        0int
    });
    crate::blocks::common::header_bytes(tx_id(), 0, text_block_len(b) as u64, 0) + b + (if needs_null(b) {
        seq![0u8]
    } else {
        Seq::empty()
    }) + zeros(padding8(unpadded) as nat)
}

/// The text block (variable length).
pub struct TextBlock {
    pub header: BlockHeader,
    pub text: String,
}

impl TextBlock {
    /// The bytes that encode this block.
    pub open spec fn spec_bytes(&self) -> Seq<u8> {
        let b = encode_utf8(self.text@);
        let unpadded = 24 + b.len() + (if needs_null(b) {
            1int
        } else {
            0int
        });
        self.header.spec_bytes() + b + (if needs_null(b) {
            seq![0u8]
        } else {
            Seq::empty()
        }) + zeros(padding8(unpadded) as nat)
    }

    /// Whether the block may be serialized: identifier `##TX` and a length
    /// equal to the one its text needs.
    pub open spec fn serializable(&self) -> bool {
        &&& self.header.id@ == tx_id()
        &&& self.header.block_len as usize as int == text_block_len(encode_utf8(self.text@))
    }

    /// Creates a text block holding `text`, with the header's length set to
    /// the length the text needs.
    pub fn new(text: &str) -> (r: Self)
        requires
            text@.len() <= usize::MAX,
            encode_utf8(text@).len() + 32 <= usize::MAX,
        ensures
            r.text@ == text@,
            r.header.id@ == tx_id(),
            r.header.reserved0 == 0 && r.header.links_nr == 0,
            r.header.block_len == text_block_len(encode_utf8(text@)),
    {
        let text_bytes = text.as_bytes();
        let needs_null = text_bytes.len() == 0 || text_bytes[text_bytes.len() - 1] != 0;
        let text_size = text_bytes.len() + if needs_null { 1 } else { 0 };
        let unpadded_size = 24 + text_size;
        let padding_bytes = (8 - (unpadded_size % 8)) % 8;
        let block_len = unpadded_size + padding_bytes;
        TextBlock {
            header: BlockHeader {
                id: String::from_str(TextBlock::block_id()),
                reserved0: 0,
                block_len: block_len as u64,
                links_nr: 0,
            },
            text: String::from_str(text),
        }
    }

    /// Creates a text block holding the empty string.
    pub fn new_empty() -> (r: Self)
        ensures
            r.text@ == Seq::<char>::empty(),
            r.header.id@ == tx_id(),
            r.header.reserved0 == 0 && r.header.links_nr == 0,
            r.header.block_len == 32,
    {
        let r = Self::new(TextBlock::empty_str());
        proof {
            assert(encode_utf8(Seq::<char>::empty()) =~= Seq::<u8>::empty());
        }
        r
    }

    /// The empty string literal.
    fn empty_str() -> (r: &'static str)
        ensures
            r@ == Seq::<char>::empty(),
    {
        proof {
            reveal_strlit("");
        }
        ""
    }

    /// Serializes the block: header, text bytes, a NUL terminator when the
    /// text does not already end with one, and zero padding to a multiple of
    /// eight. Fails with [`Error::BlockSerializationError`] exactly when the
    /// identifier is not `##TX` or the header's length differs from the
    /// length the text needs.
    pub fn to_bytes(&self) -> (r: Result<Vec<u8>>)
        requires
            encode_utf8(self.text@).len() + 32 <= usize::MAX,
        ensures
            r is Ok <==> self.serializable(),
            r matches Ok(b) ==> b@ == self.spec_bytes() && b@.len() == text_block_len(
                encode_utf8(self.text@),
            ) && b@.len() % 8 == 0,
            r matches Err(e) ==> e is BlockSerializationError,
    {
        if !str_eq(self.header.id.as_str(), TextBlock::block_id()) {
            return Err(
                Error::BlockSerializationError(
                    concat3("TextBlock must have ID '##TX', found '", self.header.id.as_str(), "'"),
                ),
            );
        }
        let text_bytes = self.text.as_str().as_bytes();
        let needs_null = text_bytes.len() == 0 || text_bytes[text_bytes.len() - 1] != 0;
        let text_size = text_bytes.len() + if needs_null { 1 } else { 0 };
        let unpadded_size = 24 + text_size;
        let padding_bytes = (8 - (unpadded_size % 8)) % 8;
        let total_size = unpadded_size + padding_bytes;
        let stated: usize = #[verifier::truncate] (self.header.block_len as usize);
        if stated != total_size {
            let n = decimal_string(self.header.block_len);
            return Err(
                Error::BlockSerializationError(
                    concat3("TextBlock header.block_len (", n.as_str(), ") does not match"),
                ),
            );
        }
        let mut buffer: Vec<u8> = match self.header.to_bytes() {
            Ok(b) => b,
            Err(e) => {
                return Err(e);
            },
        };
        push_slice(&mut buffer, text_bytes);
        if needs_null {
            buffer.push(0);
        }
        push_zeros(&mut buffer, padding_bytes);
        proof {
            assert(buffer@ =~= self.spec_bytes());
        }
        Ok(buffer)
    }
}

/// Reads the string stored in a text-like block of length `block_len`
/// starting at `bytes`, failing with [`Error::TooShortBuffer`] when the
/// bytes end before the block does.
fn read_block_text(bytes: &[u8], block_len: u64, file: &'static str) -> (r: Result<String>)
    ensures
        r is Ok <==> bytes@.len() >= text_data_end(block_len),
        r matches Ok(s) ==> s@ == trim_char(
            lossy_utf8(bytes@.subrange(24, text_data_end(block_len))),
            '\0',
        ),
        r matches Err(e) ==> e is TooShortBuffer,
{
    let stated: usize = #[verifier::truncate] (block_len as usize);
    let data_len: usize = if stated >= 24 { stated - 24 } else { 0 };
    let expected_bytes = 24 + data_len;
    if bytes.len() < expected_bytes {
        return Err(Error::TooShortBuffer {
            actual: bytes.len(),
            expected: expected_bytes,
            file,
            line: 0,
        });
    }
    let decoded = utf8_lossy(slice_subrange(bytes, 24, 24 + data_len));
    let trimmed = trim_nul(decoded.as_str());
    Ok(String::from_str(trimmed))
}

/// The end of the data of a text-like block of stated length `block_len`.
pub open spec fn text_data_end(block_len: u64) -> int {
    let n = block_len as usize as int;
    if n >= 24 {
        n
    } else {
        24
    }
}

impl BlockParse for TextBlock {
    open spec fn spec_id() -> Seq<char> {
        tx_id()
    }

    fn block_id() -> (r: &'static str) {
        proof {
            reveal_strlit("##TX");
        }
        "##TX"
    }

    /// Parses a text block: the text is the lossy UTF-8 decoding of the
    /// data after the header, with leading and trailing NULs removed. Fails
    /// with [`Error::BlockIDError`] when the identifier is not `##TX` and
    /// with [`Error::TooShortBuffer`] when the bytes end before the block.
    fn from_bytes(bytes: &[u8]) -> (r: Result<Self>)
        ensures
            bytes@.len() >= 24 ==> (r is Ok <==> lossy_utf8(bytes@.subrange(0, 4)) == tx_id()
                && bytes@.len() >= text_data_end(u64_at_8(bytes@))),
            r matches Ok(t) ==> t.header.parsed_from(bytes@) && t.text@ == trim_char(
                lossy_utf8(bytes@.subrange(24, text_data_end(t.header.block_len))),
                '\0',
            ),
            bytes@.len() >= 24 && lossy_utf8(bytes@.subrange(0, 4)) != tx_id() ==> (r matches Err(
                e,
            ) && e is BlockIDError),
            bytes@.len() >= 24 && lossy_utf8(bytes@.subrange(0, 4)) == tx_id() && bytes@.len() < text_data_end(
                u64_at_8(bytes@),
            ) ==> (r matches Err(e) && e is TooShortBuffer),
            bytes@.len() < 24 ==> (r matches Err(e) && e is TooShortBuffer),
    {
        if bytes.len() < 24 {
            return Err(Error::TooShortBuffer {
                actual: bytes.len(),
                expected: 24,
                file: "blocks/text_block.rs",
                line: 0,
            });
        }
        let header = match Self::parse_header(bytes) {
            Ok(h) => h,
            Err(e) => {
                return Err(e);
            },
        };
        let text = match read_block_text(bytes, header.block_len, "blocks/text_block.rs") {
            Ok(t) => t,
            Err(e) => {
                return Err(e);
            },
        };
        Ok(TextBlock { header, text })
    }
}

/// The block length stored in a block header.
pub open spec fn u64_at_8(b: Seq<u8>) -> u64 {
    crate::blocks::common::u64_at(b, 8)
}

/// The metadata block (variable length): an XML string stored like a text
/// block.
pub struct MetadataBlock {
    pub header: BlockHeader,
    pub xml: String,
}

impl BlockParse for MetadataBlock {
    open spec fn spec_id() -> Seq<char> {
        md_id()
    }

    fn block_id() -> (r: &'static str) {
        proof {
            reveal_strlit("##MD");
        }
        "##MD"
    }

    /// Parses a metadata block the way a text block is parsed.
    fn from_bytes(bytes: &[u8]) -> (r: Result<Self>)
        ensures
            bytes@.len() >= 24 ==> (r is Ok <==> lossy_utf8(bytes@.subrange(0, 4)) == md_id()
                && bytes@.len() >= text_data_end(u64_at_8(bytes@))),
            r matches Ok(m) ==> m.header.parsed_from(bytes@) && m.xml@ == trim_char(
                lossy_utf8(bytes@.subrange(24, text_data_end(m.header.block_len))),
                '\0',
            ),
            bytes@.len() >= 24 && lossy_utf8(bytes@.subrange(0, 4)) != md_id() ==> (r matches Err(
                e,
            ) && e is BlockIDError),
            bytes@.len() >= 24 && lossy_utf8(bytes@.subrange(0, 4)) == md_id() && bytes@.len() < text_data_end(
                u64_at_8(bytes@),
            ) ==> (r matches Err(e) && e is TooShortBuffer),
            bytes@.len() < 24 ==> (r matches Err(e) && e is TooShortBuffer),
    {
        if bytes.len() < 24 {
            return Err(Error::TooShortBuffer {
                actual: bytes.len(),
                expected: 24,
                file: "blocks/text_block.rs",
                line: 0,
            });
        }
        let header = match Self::parse_header(bytes) {
            Ok(h) => h,
            Err(e) => {
                return Err(e);
            },
        };
        let xml = match read_block_text(bytes, header.block_len, "blocks/text_block.rs") {
            Ok(t) => t,
            Err(e) => {
                return Err(e);
            },
        };
        Ok(MetadataBlock { header, xml })
    }
}

/// The text held by a text or metadata block whose bytes start with `b`.
pub open spec fn block_text(b: Seq<u8>) -> Seq<char> {
    trim_char(lossy_utf8(b.subrange(24, text_data_end(u64_at_8(b)))), '\0')
}

/// Reads the text of the text (`##TX`) or metadata (`##MD`) block at
/// `address` of a whole file image. Address 0 (no block) and blocks of
/// any other kind give `None`; a block header, or a text or metadata
/// block, that runs past the image fails with [`Error::TooShortBuffer`].
pub fn read_string_block(mmap: &[u8], address: u64) -> (r: Result<Option<String>>)
    ensures
        address != 0 && address + 24 > mmap@.len() ==> (r matches Err(e) && e is TooShortBuffer),
        ({
            let b = mmap@.subrange(address as int, mmap@.len() as int);
            let id = lossy_utf8(b.subrange(0, 4));
            if address == 0 {
                r matches Ok(None)
            } else if address + 24 > mmap@.len() {
                true
            } else if id == tx_id() || id == md_id() {
                &&& (r is Ok <==> b.len() >= text_data_end(u64_at_8(b)))
                &&& r matches Ok(Some(t)) ==> t@ == block_text(b)
                &&& r matches Ok(x) ==> x is Some
            } else {
                r matches Ok(None)
            }
        }),
{
    if address == 0 {
        return Ok(None);
    }
    let n = mmap.len();
    if address > n as u64 || (n as u64) - address < 24 {
        return Err(Error::TooShortBuffer {
            actual: if address > n as u64 { 0 } else { n - address as usize },
            expected: 24,
            file: "blocks/text_block.rs",
            line: 0,
        });
    }
    let offset = address as usize;
    let rest = slice_subrange(mmap, offset, n);
    let header = match BlockHeader::from_bytes(slice_subrange(rest, 0, 24)) {
        Ok(h) => h,
        Err(e) => {
            return Err(e);
        },
    };
    proof {
        assert(rest@.subrange(0, 24).subrange(0, 4) =~= rest@.subrange(0, 4));
    }
    if str_eq(header.id.as_str(), TextBlock::block_id()) {
        match TextBlock::from_bytes(rest) {
            Ok(t) => Ok(Some(t.text)),
            Err(e) => Err(e),
        }
    } else if str_eq(header.id.as_str(), MetadataBlock::block_id()) {
        match MetadataBlock::from_bytes(rest) {
            Ok(m) => Ok(Some(m.xml)),
            Err(e) => Err(e),
        }
    } else {
        Ok(None)
    }
}

} // verus!
