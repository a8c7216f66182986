//! The CRC-32 used to attest the mirrored book against the upstream one.

use vstd::prelude::*;

verus! {

/// The IEEE CRC-32 of a byte sequence. What the value is on given bytes
/// is left unstated here; it is a pure function of the bytes alone, and
/// the regression oracle pins it on concrete input.
pub uninterp spec fn crc32_of(bytes: Seq<u8>) -> u32;

/// Relies on crc32fast::hash: the IEEE CRC-32 of a buffer, a pure
/// function of the buffer's bytes.
#[verifier::external_body]
pub(crate) fn crc32(bytes: &Vec<u8>) -> (r: u32)
    ensures
        r == crc32_of(bytes@),
{
    crc32fast::hash(bytes.as_slice())
}

} // verus!
