//! Core data structures and binary format constants shared between the
//! database writer and the reader.

use vstd::prelude::*;

verus! {

/// Magic bytes identifying a valid database file ("GLDB").
pub const MAGIC: [u8; 4] = [71u8, 76u8, 68u8, 66u8];

/// Current on-disk format version.
pub const VERSION: u32 = 1;

/// Fixed size of the file header, in bytes:
/// `magic(4) + version(4) + country_count(4) + range_count(4) + range_table_offset(8)`.
pub const HEADER_SIZE: usize = 24;

/// On-disk size of a single IP range record: `start(4) + end(4) + country_index(2)`.
pub const RANGE_RECORD_SIZE: usize = 10;

/// Country table index reserved for ranges whose country is unknown.
pub const UNKNOWN_COUNTRY_INDEX: u16 = 0;

/// Display name used for the reserved "unknown" country slot.
pub const UNKNOWN_COUNTRY_NAME: &'static str = "Unknown";

/// A single IPv4 address range mapped to a country, as stored on disk.
///
/// `start` and `end` are inclusive bounds in host byte order.
#[derive(Debug, Clone, Copy, PartialEq, Eq, Structural)]
pub struct IpRange {
    pub start: u32,
    pub end: u32,
    pub country_index: u16,
}

impl IpRange {
    /// Whether `addr` lies in the inclusive interval `[start, end]`.
    pub open spec fn spec_contains(self, addr: u32) -> bool {
        self.start <= addr && addr <= self.end
    }

    /// Whether `addr` falls within this inclusive range.
    pub fn contains(&self, addr: u32) -> (r: bool)
        ensures
            r == self.spec_contains(addr),
    {
        addr >= self.start && addr <= self.end
    }
}

/// Parsed representation of the fixed-size file header.
#[derive(Debug, Clone, Copy)]
pub struct Header {
    pub version: u32,
    pub country_count: u32,
    pub range_count: u32,
    /// Absolute byte offset where the range table begins.
    pub range_table_offset: u64,
}

} // verus!
