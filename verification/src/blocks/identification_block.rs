//! The identification block: the first 64 bytes of every MDF file.
use crate::blocks::common::{
    lemma_le_roundtrips, push_u16_le, push_zeros, read_u16_at, u16_at, zeros,
};
use crate::error::{Error, Result};
use crate::text::{
    decimal_chars, decimal_string, major_text, minor_text, parse_u16_chars, parse_u16_spec, split_version,
    lossy_utf8, str_chars, str_eq, str_from_utf8, utf8_lossy, version_text,
};
use vstd::bytes::*;
use vstd::prelude::*;
use vstd::slice::slice_subrange;
use vstd::string::StringExecFns;
use vstd::utf8::{decode_utf8, encode_utf8, valid_utf8};

verus! {

/// The identifier of a finalized MDF file, `MDF` and five spaces.
pub open spec fn finalized_file_id() -> Seq<char> {
    seq!['M', 'D', 'F', ' ', ' ', ' ', ' ', ' ']
}

/// A string field of `n` bytes: the UTF-8 bytes of `s`, truncated or padded
/// with spaces (or zeros).
pub open spec fn padded_field(s: Seq<char>, n: nat, space: bool) -> Seq<u8> {
    let b = encode_utf8(s);
    if b.len() >= n {
        b.subrange(0, n as int)
    } else {
        b + Seq::new((n - b.len()) as nat, |i: int| if space { 32u8 } else { 0u8 })
    }
}

/// The `(major, minor)` version that `parse_block_version` reads from `b`,
/// or `None` when it fails.
pub open spec fn block_version_spec(b: Seq<u8>) -> Option<(u16, u16)> {
    if !valid_utf8(b) {
        None
    } else {
        let t = version_text(decode_utf8(b));
        match (parse_u16_spec(major_text(t)), parse_u16_spec(minor_text(t))) {
            (Some(maj), Some(min)) => Some((maj, min)),
            _ => None,
        }
    }
}

/// Whether the first eight bytes of `b` are UTF-8 and decode to the
/// identifier of a finalized MDF file; an unfinalized file (`UnFinMF `) is
/// not accepted.
pub open spec fn accepted_file_id(b: Seq<u8>) -> bool {
    valid_utf8(b.subrange(0, 8)) && decode_utf8(b.subrange(0, 8)) == finalized_file_id()
}

/// Whether an identification block can be read without overflow or
/// undecodable text: for an accepted identifier whose version parses, the
/// version number fits in 16 bits and, when it is at least 4.10, the
/// program identifier is UTF-8.
pub open spec fn readable_id_block(b: Seq<u8>) -> bool {
    &&& b.len() >= 64 && accepted_file_id(b) ==> (block_version_spec(b.subrange(8, 16)) matches Some(
        (maj, min),
    ) ==> maj * 100 + min <= 65535 && (maj * 100 + min >= 410 ==> valid_utf8(b.subrange(16, 24))))
}

/// The identification block (64 bytes).
pub struct IdentificationBlock {
    pub file_identifier: String,
    pub version_identifier: String,
    pub program_identifier: String,
    pub version_number: u16,
    pub standard_unfinalized_flags: u16,
    pub custom_unfinalized_flags: u16,
}

impl IdentificationBlock {
    /// The 64 bytes that encode this block.
    pub open spec fn spec_bytes(&self) -> Seq<u8> {
        padded_field(self.file_identifier@, 8, true) + padded_field(
            self.version_identifier@,
            8,
            true,
        ) + padded_field(self.program_identifier@, 8, true) + zeros(4) + spec_u16_to_le_bytes(
            self.version_number,
        ) + zeros(30) + spec_u16_to_le_bytes(self.standard_unfinalized_flags)
            + spec_u16_to_le_bytes(self.custom_unfinalized_flags)
    }

    /// The standard identification: `MDF     `, `4.10    `, `mdf4-rs `,
    /// version 410, no unfinalized flags.
    pub fn default() -> (r: Self)
        ensures
            r.file_identifier@ == finalized_file_id(),
            r.version_identifier@ == seq!['4', '.', '1', '0', ' ', ' ', ' ', ' '],
            r.program_identifier@ == seq!['m', 'd', 'f', '4', '-', 'r', 's', ' '],
            r.version_number == 410,
            r.standard_unfinalized_flags == 0,
            r.custom_unfinalized_flags == 0,
    {
        proof {
            reveal_strlit("MDF     ");
            reveal_strlit("4.10    ");
            reveal_strlit("mdf4-rs ");
        }
        IdentificationBlock {
            file_identifier: String::from_str("MDF     "),
            version_identifier: String::from_str("4.10    "),
            program_identifier: String::from_str("mdf4-rs "),
            version_number: 410,
            standard_unfinalized_flags: 0,
            custom_unfinalized_flags: 0,
        }
    }

    /// The first `target_len` bytes of `source`, padded with spaces (or
    /// zeros) when it is shorter.
    fn copy_string_with_padding(source: &str, target_len: usize, use_space_padding: bool) -> (r:
        Vec<u8>)
        ensures
            r@ == padded_field(source@, target_len as nat, use_space_padding),
    {
        let src_bytes = source.as_bytes();
        let copy_len = if src_bytes.len() < target_len { src_bytes.len() } else { target_len };
        let mut target: Vec<u8> = Vec::new();
        crate::blocks::common::push_slice(&mut target, slice_subrange(src_bytes, 0, copy_len));
        let padding_byte: u8 = if use_space_padding { 32 } else { 0 };
        let ghost prefix = target@;
        let mut i = copy_len;
        while i < target_len
            invariant
                copy_len <= i <= target_len,
                target@ == prefix + Seq::new((i - copy_len) as nat, |k: int| padding_byte),
            decreases target_len - i,
        {
            target.push(padding_byte);
            i = i + 1;
            assert(target@ =~= prefix + Seq::new((i - copy_len) as nat, |k: int| padding_byte));
        }
        proof {
            let b = encode_utf8(source@);
            if b.len() >= target_len {
                assert(target@ =~= padded_field(source@, target_len as nat, use_space_padding));
            } else {
                assert(b.subrange(0, b.len() as int) =~= b);
                assert(target@ =~= padded_field(source@, target_len as nat, use_space_padding));
            }
        }
        target
    }

    /// Serializes the block: three 8-byte identifier fields (space-padded or
    /// truncated), reserved zeros, the version number, more reserved zeros
    /// and the two flag words. This never fails.
    pub fn to_bytes(&self) -> (r: Result<Vec<u8>>)
        ensures
            r matches Ok(b) && b@ == self.spec_bytes() && b@.len() == 64,
    {
        let mut buffer = Self::copy_string_with_padding(self.file_identifier.as_str(), 8, true);
        let mut v = Self::copy_string_with_padding(self.version_identifier.as_str(), 8, true);
        buffer.append(&mut v);
        let mut p = Self::copy_string_with_padding(self.program_identifier.as_str(), 8, true);
        buffer.append(&mut p);
        push_zeros(&mut buffer, 4);
        push_u16_le(&mut buffer, self.version_number);
        push_zeros(&mut buffer, 30);
        push_u16_le(&mut buffer, self.standard_unfinalized_flags);
        push_u16_le(&mut buffer, self.custom_unfinalized_flags);
        proof {
            lemma_le_roundtrips();
            assert(buffer@ =~= self.spec_bytes());
        }
        Ok(buffer)
    }

    /// Parses the textual version stored in the block: the bytes must be
    /// UTF-8; trailing NULs and surrounding whitespace are removed; the text
    /// up to the first dot is the major version and the text up to the next
    /// dot the minor version (0 when there is no dot), each parsed as a
    /// `u16`. Fails with [`Error::InvalidVersionString`] otherwise.
    pub fn parse_block_version(bytes: &[u8]) -> (r: Result<(u16, u16)>)
        ensures
            r is Ok <==> block_version_spec(bytes@) is Some,
            r matches Ok(v) ==> block_version_spec(bytes@) == Some(v),
            r matches Err(e) ==> e is InvalidVersionString,
    {
        let raw = match str_from_utf8(bytes) {
            Some(s) => s,
            None => {
                return Err(Error::InvalidVersionString(Self::message_invalid_utf8()));
            },
        };
        let chars = str_chars(raw);
        let (a, b, minor) = split_version(&chars);
        let maj = match parse_u16_chars(&chars, a, b) {
            Some(v) => v,
            None => {
                return Err(Error::InvalidVersionString(Self::message_invalid_major()));
            },
        };
        let min = match minor {
            Some((c, d)) => parse_u16_chars(&chars, c, d),
            None => {
                proof {
                    assert(parse_u16_spec(seq!['0']) == Some(0u16)) by {
                        crate::text::reveal_decimal_digit_zero();
                    }
                }
                Some(0)
            },
        };
        match min {
            Some(m) => Ok((maj, m)),
            None => Err(Error::InvalidVersionString(Self::message_invalid_minor())),
        }
    }

    /// Whether [`IdentificationBlock::from_bytes`] can take `bytes`
    /// without meeting a version it cannot hold or text it cannot decode:
    /// for an accepted identifier whose version parses, the version number
    /// fits in 16 bits and, when it is at least 4.10, the program
    /// identifier is UTF-8.
    pub fn can_parse(bytes: &[u8]) -> (r: bool)
        ensures
            r == readable_id_block(bytes@),
    {
        if bytes.len() < 64 {
            return true;
        }
        let id = match str_from_utf8(slice_subrange(bytes, 0, 8)) {
            Some(s) => s,
            None => {
                return true;
            },
        };
        let fin = "MDF     ";
        proof {
            reveal_strlit("MDF     ");
            assert(fin@ =~= finalized_file_id());
        }
        if !str_eq(id, fin) {
            return true;
        }
        match Self::parse_block_version(slice_subrange(bytes, 8, 16)) {
            Ok((maj, min)) => {
                let v: u32 = maj as u32 * 100 + min as u32;
                if v > 65535 {
                    false
                } else if v >= 410 {
                    str_from_utf8(slice_subrange(bytes, 16, 24)).is_some()
                } else {
                    true
                }
            },
            Err(_) => true,
        }
    }

    /// Parses an identification block. Fails with
    /// [`Error::TooShortBuffer`] when fewer than 64 bytes are given, with
    /// [`Error::FileIdentifierError`] when the file identifier is not
    /// `MDF     ` (an unfinalized `UnFinMF ` file included), with
    /// [`Error::InvalidVersionString`] when the version text does not parse,
    /// and with [`Error::FileVersioningError`] carrying the version number
    /// in decimal when the version is below 4.10.
    pub fn from_bytes(bytes: &[u8]) -> (r: Result<Self>)
        requires
            readable_id_block(bytes@),
        ensures
            bytes@.len() < 64 ==> (r matches Err(e) && e is TooShortBuffer),
            bytes@.len() >= 64 && !accepted_file_id(bytes@) ==> (r matches Err(e)
                && e matches Error::FileIdentifierError(id) && id@ == lossy_utf8(
                bytes@.subrange(0, 8),
            )),
            bytes@.len() >= 64 && accepted_file_id(bytes@) && block_version_spec(
                bytes@.subrange(8, 16),
            ) is None ==> (r matches Err(e) && e is InvalidVersionString),
            bytes@.len() >= 64 && accepted_file_id(bytes@) ==> (block_version_spec(
                bytes@.subrange(8, 16),
            ) matches Some((maj, min)) ==> (maj * 100 + min < 410 ==> (r matches Err(e)
                && e matches Error::FileVersioningError(v) && v@ == decimal_chars((maj * 100 + min) as nat)))
                && (maj * 100 + min >= 410 ==> r is Ok)),
            r matches Ok(id) ==> id.parsed_from(bytes@),
    {
        if bytes.len() < 64 {
            return Err(Error::TooShortBuffer {
                actual: bytes.len(),
                expected: 64,
                file: "blocks/identification_block.rs",
                line: 0,
            });
        }
        let file_identifier = match str_from_utf8(slice_subrange(bytes, 0, 8)) {
            Some(s) => String::from_str(s),
            None => {
                return Err(Error::FileIdentifierError(utf8_lossy(slice_subrange(bytes, 0, 8))));
            },
        };
        let fin = "MDF     ";
        proof {
            reveal_strlit("MDF     ");
            assert(fin@ =~= finalized_file_id());
            assert(file_identifier@ == decode_utf8(bytes@.subrange(0, 8)));
        }
        if !str_eq(file_identifier.as_str(), fin) {
            return Err(Error::FileIdentifierError(file_identifier));
        }
        let (major, minor) = match Self::parse_block_version(slice_subrange(bytes, 8, 16)) {
            Ok(v) => v,
            Err(e) => {
                return Err(e);
            },
        };
        assert(accepted_file_id(bytes@));
        let version_u16 = major * 100 + minor;
        if version_u16 < 410 {
            return Err(Error::FileVersioningError(decimal_string(version_u16 as u64)));
        }
        let version_identifier = match str_from_utf8(slice_subrange(bytes, 8, 16)) {
            Some(s) => String::from_str(s),
            None => {
                return Err(Error::InvalidVersionString(Self::message_invalid_utf8()));
            },
        };
        let program_identifier = match str_from_utf8(slice_subrange(bytes, 16, 24)) {
            Some(s) => String::from_str(s),
            None => {
                return Err(Error::InvalidVersionString(Self::message_invalid_utf8()));
            },
        };
        Ok(IdentificationBlock {
            file_identifier,
            version_identifier,
            program_identifier,
            version_number: read_u16_at(bytes, 28),
            standard_unfinalized_flags: read_u16_at(bytes, 60),
            custom_unfinalized_flags: read_u16_at(bytes, 62),
        })
    }

    /// Whether this block is what `from_bytes` reads from `b`.
    pub open spec fn parsed_from(&self, b: Seq<u8>) -> bool {
        &&& b.len() >= 64
        &&& self.file_identifier@ == decode_utf8(b.subrange(0, 8))
        &&& self.version_identifier@ == decode_utf8(b.subrange(8, 16))
        &&& self.program_identifier@ == decode_utf8(b.subrange(16, 24))
        &&& self.version_number == u16_at(b, 28)
        &&& self.standard_unfinalized_flags == u16_at(b, 60)
        &&& self.custom_unfinalized_flags == u16_at(b, 62)
    }

    fn message_invalid_utf8() -> (m: String)
        ensures
            m@ == "Invalid UTF-8"@,
    {
        String::from_str("Invalid UTF-8")
    }

    fn message_invalid_major() -> (m: String)
        ensures
            m@ == "Invalid major version string"@,
    {
        String::from_str("Invalid major version string")
    }

    fn message_invalid_minor() -> (m: String)
        ensures
            m@ == "Invalid minor version string"@,
    {
        String::from_str("Invalid minor version string")
    }
}

} // verus!

verus! {

/// The 64 bytes of the standard identification block.
pub open spec fn default_identification_bytes() -> Seq<u8> {
    padded_field(finalized_file_id(), 8, true) + padded_field(
        seq!['4', '.', '1', '0', ' ', ' ', ' ', ' '],
        8,
        true,
    ) + padded_field(seq!['m', 'd', 'f', '4', '-', 'r', 's', ' '], 8, true) + zeros(4)
        + spec_u16_to_le_bytes(410) + zeros(30) + spec_u16_to_le_bytes(0) + spec_u16_to_le_bytes(
        0,
    )
}

/// Law: the standard identification block is 64 bytes long and begins with
/// the ASCII bytes `MDF`.
pub proof fn lemma_default_identification_starts_with_mdf()
    ensures
        default_identification_bytes().len() == 64,
        default_identification_bytes()[0] == 77u8,
        default_identification_bytes()[1] == 68u8,
        default_identification_bytes()[2] == 70u8,
{
    lemma_le_roundtrips();
    let id = finalized_file_id();
    assert(vstd::utf8::is_ascii_chars(id));
    vstd::utf8::is_ascii_chars_encode_utf8(id);
    let v = seq!['4', '.', '1', '0', ' ', ' ', ' ', ' '];
    assert(vstd::utf8::is_ascii_chars(v));
    vstd::utf8::is_ascii_chars_encode_utf8(v);
    let p = seq!['m', 'd', 'f', '4', '-', 'r', 's', ' '];
    assert(vstd::utf8::is_ascii_chars(p));
    vstd::utf8::is_ascii_chars_encode_utf8(p);
    let e = encode_utf8(id);
    assert(e[0] == id[0] as u8);
    assert(e[1] == id[1] as u8);
    assert(e[2] == id[2] as u8);
    assert(padded_field(id, 8, true) =~= e.subrange(0, 8));
}

} // verus!
