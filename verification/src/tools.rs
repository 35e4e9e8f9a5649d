//! Detection of gzip-compressed input from the leading magic number.

use vstd::prelude::*;

verus! {

/// True when the sequence starts with the two-byte gzip magic number
/// `0x1F 0x8B`.
pub open spec fn spec_is_gzip_magic(bytes: Seq<u8>) -> bool {
    bytes.len() >= 2 && bytes[0] == 0x1fu8 && bytes[1] == 0x8bu8
}

/// Decides, from the first bytes of a file, whether the stream must be
/// decompressed before parsing. A caller that could not read at least two
/// bytes must report an I/O error instead of calling this.
pub fn is_gzip_magic(bytes: &[u8]) -> (r: bool)
    requires
        bytes@.len() >= 2,
    ensures
        r == spec_is_gzip_magic(bytes@),
{
    bytes[0] == 0x1f && bytes[1] == 0x8b
}

} // verus!
