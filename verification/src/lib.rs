//! An in-memory index over NTFS volumes: parsing of MFT file records and
//! their attributes, data-run decoding, parallel index construction helpers,
//! path reconstruction, and live updates from the USN change journal.
//!
//! The platform I/O (opening volume handles, overlapped reads, journal
//! ioctls) lives outside this crate; this library holds the parsing and the
//! index logic, each function with a verified contract.
use vstd::prelude::*;

pub mod file_attribute;
pub mod file_record;
pub mod index;
pub mod journal;
pub mod mft;
pub mod text;
pub mod volume;

verus! {

/// The error taxonomy of the index engine. The I/O driver produces the
/// volume/handle variants; the parsers produce the record and journal ones.
#[derive(Clone, Copy, Debug, PartialEq, Eq, Structural)]
pub enum NtfsError {
    /// The volume could not be opened for reading.
    VolumeOpen,
    /// Querying the NTFS volume geometry failed.
    VolumeQuery,
    /// An overlapped read of MFT extents (or the wait on it) failed.
    MftRead,
    /// A file record's magic is missing or its attribute stream is corrupt.
    RecordMalformed,
    /// The change journal could not be opened or queried.
    JournalOpen,
    /// A journal record has zero length or the wrong major version.
    JournalCorrupt,
    /// Closing an OS handle reported failure.
    HandleClose,
}

} // verus!
