//! Error handling for the database reader, writer and builder logic.

use vstd::prelude::*;

use crate::models::VERSION;

verus! {

/// `std::io::Error`, carried through unchanged when file access fails.
#[verifier::external_type_specification]
#[verifier::external_body]
pub struct ExIoError(std::io::Error);

/// `csv::Error`, carried through unchanged when a CSV file cannot be read.
#[verifier::external_type_specification]
#[verifier::external_body]
pub struct ExCsvError(csv::Error);

/// Everything that can go wrong building, opening, or querying a database.
#[derive(Debug)]
pub enum GeoError {
    /// Underlying filesystem I/O failed (open, read, write, ...).
    Io(std::io::Error),
    /// A CSV file could not be parsed (used only by the builder).
    Csv(csv::Error),
    /// The string handed to `lookup` is not a valid dotted-quad IPv4 address.
    InvalidIp(String),
    /// The string handed to the builder is not valid CIDR notation.
    InvalidCidr(String),
    /// The bytes failed structural validation.
    CorruptDatabase(String),
    /// The file has valid magic bytes but a different format version.
    VersionMismatch { found: u32, expected: u32 },
    /// A range record pointed at a country index missing from the country table.
    CountryIndexOutOfRange(u16),
}

impl GeoError {
    /// The error for a header whose version field holds `found`.
    pub fn version_mismatch(found: u32) -> (e: Self)
        ensures
            e == (GeoError::VersionMismatch { found, expected: VERSION }),
    {
        GeoError::VersionMismatch { found, expected: VERSION }
    }
}

} // verus!
