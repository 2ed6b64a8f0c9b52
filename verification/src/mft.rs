//! The `$MFT` file record itself: the first record segment of the volume's
//! MFT, repaired by fixup. Decoding its `$DATA` attribute yields the extent
//! map of the whole MFT.
use vstd::prelude::*;

verus! {

use crate::file_record::{FileRecord, spec_fixup, spec_parse_record_header};
use crate::NtfsError;

/// The `$MFT` record's bytes after fixup.
pub struct MftFile {
    data: Vec<u8>,
}

impl View for MftFile {
    type V = Seq<u8>;

    closed spec fn view(&self) -> Seq<u8> {
        self.data@
    }
}

impl MftFile {
    /// The held bytes parse as a file record.
    pub open spec fn wf(&self) -> bool {
        spec_parse_record_header(self@) is Some
    }

    /// Takes the raw first file-record segment of the MFT as read from the
    /// volume, applies the fixup, and keeps the repaired record; a buffer
    /// too short for a record header is `RecordMalformed`.
    pub fn new(data: Vec<u8>, bytes_per_sector: usize) -> (r: Result<MftFile, NtfsError>)
        ensures
            r is Ok <==> spec_parse_record_header(
                spec_fixup(data@, bytes_per_sector as int),
            ) is Some,
            r is Ok ==> {
                &&& r->Ok_0@ == spec_fixup(data@, bytes_per_sector as int)
                &&& r->Ok_0.wf()
            },
            r is Err ==> r->Err_0 == NtfsError::RecordMalformed,
    {
        let mut buf = data;
        FileRecord::fixup(&mut buf, bytes_per_sector);
        if buf.len() < 42 {
            return Err(NtfsError::RecordMalformed);
        }
        Ok(MftFile { data: buf })
    }

    /// The file record over the repaired bytes.
    pub fn as_record(&self) -> (r: FileRecord<'_>)
        requires
            self.wf(),
        ensures
            r.wf(),
            r.data@ == self@,
            r.header == spec_parse_record_header(self@)->Some_0,
    {
        match FileRecord::new(self.data.as_slice()) {
            Some(r) => r,
            None => vstd::pervasive::unreached(),
        }
    }
}

} // verus!
