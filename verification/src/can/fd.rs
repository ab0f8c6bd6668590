//! CAN FD frame flags and data length codes.
use vstd::prelude::*;

verus! {

/// The largest payload of a CAN FD frame, in bytes.
pub const MAX_FD_DATA_LEN: usize = 64;

/// Flags of a CAN FD frame.
#[derive(Debug, Clone, Copy, PartialEq, Eq, Structural)]
pub struct FdFlags {
    brs: bool,
    esi: bool,
}

impl FdFlags {
    /// Creates flags with bit rate switch `brs` and error state indicator
    /// `esi`.
    pub fn new(brs: bool, esi: bool) -> (r: Self)
        ensures
            r.spec_brs() == brs,
            r.spec_esi() == esi,
    {
        FdFlags { brs, esi }
    }

    /// Whether the bit rate switch is set.
    pub closed spec fn spec_brs(&self) -> bool {
        self.brs
    }

    /// Whether the error state indicator is set.
    pub closed spec fn spec_esi(&self) -> bool {
        self.esi
    }

    /// Whether the bit rate switch is set.
    pub fn brs(&self) -> (r: bool)
        ensures
            r == self.spec_brs(),
    {
        self.brs
    }

    /// Whether the error state indicator is set.
    pub fn esi(&self) -> (r: bool)
        ensures
            r == self.spec_esi(),
    {
        self.esi
    }

    /// The flags as a byte: bit 0 is the bit rate switch, bit 1 the error
    /// state indicator.
    pub open spec fn spec_byte(&self) -> u8 {
        if self.spec_brs() && self.spec_esi() {
            3
        } else if self.spec_esi() {
            2
        } else if self.spec_brs() {
            1
        } else {
            0
        }
    }

    /// The flags as a byte: bit 0 is the bit rate switch, bit 1 the error
    /// state indicator.
    pub fn to_byte(&self) -> (r: u8)
        ensures
            r == self.spec_byte(),
    {
        let b: u8 = if self.brs { 1 } else { 0 };
        b + if self.esi { 2 } else { 0 }
    }

    /// Reads flags from a byte: bit 0 is the bit rate switch, bit 1 the
    /// error state indicator; the other bits are ignored.
    pub fn from_byte(byte: u8) -> (r: Self)
        ensures
            r.spec_brs() == (byte & 1 != 0),
            r.spec_esi() == (byte & 2 != 0),
    {
        FdFlags { brs: byte & 1 != 0, esi: byte & 2 != 0 }
    }
}

impl Default for FdFlags {
    /// No flag set, as for a classic CAN frame.
    fn default() -> (r: Self)
        ensures
            !r.spec_brs() && !r.spec_esi(),
    {
        FdFlags { brs: false, esi: false }
    }
}

/// Reading back the byte of some flags gives the same flags.
pub proof fn lemma_fd_flags_byte_roundtrip(f: FdFlags)
    ensures
        (f.spec_byte() & 1 != 0) == f.spec_brs(),
        (f.spec_byte() & 2 != 0) == f.spec_esi(),
{
    assert((0u8 & 1) == 0 && (0u8 & 2) == 0) by (bit_vector);
    assert((1u8 & 1) == 1 && (1u8 & 2) == 0) by (bit_vector);
    assert((2u8 & 1) == 0 && (2u8 & 2) == 2) by (bit_vector);
    assert((3u8 & 1) == 1 && (3u8 & 2) == 2) by (bit_vector);
}

/// The byte of the flags read from a byte is that byte's two low bits.
pub proof fn lemma_fd_flags_from_byte(b: u8, f: FdFlags)
    requires
        f.spec_brs() == (b & 1 != 0),
        f.spec_esi() == (b & 2 != 0),
    ensures
        f.spec_byte() == b & 3,
{
    assert((b & 1 != 0) && (b & 2 != 0) ==> b & 3 == 3) by (bit_vector);
    assert(!(b & 1 != 0) && (b & 2 != 0) ==> b & 3 == 2) by (bit_vector);
    assert((b & 1 != 0) && !(b & 2 != 0) ==> b & 3 == 1) by (bit_vector);
    assert(!(b & 1 != 0) && !(b & 2 != 0) ==> b & 3 == 0) by (bit_vector);
}

/// The data length code of a payload of `len` bytes: the length itself up
/// to 8, then the code of the smallest CAN FD payload size that holds it;
/// 15 (64 bytes) for anything longer.
pub open spec fn spec_len_to_dlc(len: int) -> u8 {
    if len <= 8 {
        len as u8
    } else if len <= 12 {
        9
    } else if len <= 16 {
        10
    } else if len <= 20 {
        11
    } else if len <= 24 {
        12
    } else if len <= 32 {
        13
    } else if len <= 48 {
        14
    } else {
        15
    }
}

/// The payload size of data length code `dlc`: the code itself up to 8,
/// then 12, 16, 20, 24, 32, 48 and 64 bytes; codes above 15 read as 64.
pub open spec fn spec_dlc_to_len(dlc: u8) -> usize {
    if dlc <= 8 {
        dlc as usize
    } else if dlc == 9 {
        12
    } else if dlc == 10 {
        16
    } else if dlc == 11 {
        20
    } else if dlc == 12 {
        24
    } else if dlc == 13 {
        32
    } else if dlc == 14 {
        48
    } else {
        64
    }
}

/// The data length code of a payload of `len` bytes.
pub fn len_to_dlc(len: usize) -> (r: u8)
    ensures
        r == spec_len_to_dlc(len as int),
{
    if len <= 8 {
        len as u8
    } else if len <= 12 {
        9
    } else if len <= 16 {
        10
    } else if len <= 20 {
        11
    } else if len <= 24 {
        12
    } else if len <= 32 {
        13
    } else if len <= 48 {
        14
    } else {
        15
    }
}

/// The payload size of data length code `dlc`.
pub fn dlc_to_len(dlc: u8) -> (r: usize)
    ensures
        r == spec_dlc_to_len(dlc),
{
    if dlc <= 8 {
        dlc as usize
    } else if dlc == 9 {
        12
    } else if dlc == 10 {
        16
    } else if dlc == 11 {
        20
    } else if dlc == 12 {
        24
    } else if dlc == 13 {
        32
    } else if dlc == 14 {
        48
    } else {
        64
    }
}

/// The code of a payload size holds a payload of that size, and no smaller
/// valid size would: decoding the code of a length up to 64 gives the
/// smallest payload size that is at least that length.
pub proof fn lemma_dlc_covers_len(len: int)
    requires
        0 <= len <= MAX_FD_DATA_LEN,
    ensures
        len <= spec_dlc_to_len(spec_len_to_dlc(len)),
        spec_len_to_dlc(len) > 0 ==> spec_dlc_to_len((spec_len_to_dlc(len) - 1) as u8) < len,
{
}

/// Every code up to 15 is the code of its own payload size.
pub proof fn lemma_dlc_roundtrip(dlc: u8)
    requires
        dlc <= 15,
    ensures
        spec_len_to_dlc(spec_dlc_to_len(dlc) as int) == dlc,
{
}

} // verus!
