//! CRC32 checksums of durable artifacts.
use vstd::prelude::*;

use crate::text::{self, concat2, fixed_digits_text};

verus! {

/// The CRC32 checksum of a byte sequence, as `crc32fast` computes it.
pub uninterp spec fn crc32_of(bytes: Seq<u8>) -> u32;

/// `crc32fast::hash` returns the CRC32 checksum of the bytes it is given; the
/// checksum depends on those bytes alone.
pub assume_specification[ crc32fast::hash ](buf: &[u8]) -> (sum: u32)
    ensures
        sum == crc32_of(buf@),
;

/// How a manifest writes a checksum: `crc32:` and eight hexadecimal digits.
pub open spec fn checksum_label(sum: u32) -> Seq<char> {
    "crc32:"@ + text::fixed_digits(sum as nat, 16, 8)
}

/// The manifest label of the checksum of `bytes`.
pub fn checksum_text(bytes: &[u8]) -> (label: String)
    ensures
        label@ == checksum_label(crc32_of(bytes@)),
{
    let sum: u32 = crc32fast::hash(bytes);
    concat2("crc32:", fixed_digits_text(sum as u64, 16, 8).as_str())
}

} // verus!
