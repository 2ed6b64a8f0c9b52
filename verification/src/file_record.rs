//! MFT file records: the 42-byte record header, the update-sequence fixup,
//! and the walk over the record's attributes.
//!
//! A record is valid when its magic holds the ASCII bytes `FILE`. Before the
//! attribute payloads are read, the fixup must run: the Update Sequence Array
//! (USA) holds one two-byte signature followed by one two-byte replacement
//! per sector, and fixup overwrites the last two bytes of each sector with
//! the corresponding replacement.
use vstd::prelude::*;

verus! {

use vstd::bytes::{spec_u16_from_le_bytes, spec_u32_from_le_bytes, spec_u64_from_le_bytes};
use vstd::bytes::{u16_from_le_bytes, u32_from_le_bytes, u64_from_le_bytes};
use vstd::slice::slice_subrange;
use crate::file_attribute::{Attribute, AttributeHeader, AttributeType, DataRun};
use crate::file_attribute::{spec_parse_attribute_header, spec_attr_data_runs};
use crate::text::{utf16_of, spec_utf16_units, utf16_slice_to_string};
use crate::NtfsError;

/// The parsed header of one MFT file record. `magic` holds the four header
/// bytes read little-endian; a valid record's magic is the ASCII `FILE`.
#[derive(Debug, Copy, Clone)]
pub struct FileRecordHeader {
    pub magic: u32,
    pub usa_offset: u16,
    pub usa_word_count: u16,
    pub log_file_sequence_number: u64,
    pub sequence_number: u16,
    pub hard_link_count: u16,
    pub first_attribute_offset: u16,
    pub flags: u16,
    pub bytes_used: u32,
    pub bytes_allocated: u32,
    pub base_file_record: u64,
    pub next_attribute_id: u16,
}

/// The ASCII bytes `FILE` read as a little-endian 32-bit magic.
pub const FILE_RECORD_MAGIC: u32 = 0x454C_4946;

/// Parses the 42-byte record header from the start of `data`; `None` where
/// `data` is shorter than the header.
pub open spec fn spec_parse_record_header(data: Seq<u8>) -> Option<FileRecordHeader> {
    if data.len() < 42 {
        None
    } else {
        Some(
            FileRecordHeader {
                magic: spec_u32_from_le_bytes(data.subrange(0, 4)),
                usa_offset: spec_u16_from_le_bytes(data.subrange(4, 6)),
                usa_word_count: spec_u16_from_le_bytes(data.subrange(6, 8)),
                log_file_sequence_number: spec_u64_from_le_bytes(data.subrange(8, 16)),
                sequence_number: spec_u16_from_le_bytes(data.subrange(16, 18)),
                hard_link_count: spec_u16_from_le_bytes(data.subrange(18, 20)),
                first_attribute_offset: spec_u16_from_le_bytes(data.subrange(20, 22)),
                flags: spec_u16_from_le_bytes(data.subrange(22, 24)),
                bytes_used: spec_u32_from_le_bytes(data.subrange(24, 28)),
                bytes_allocated: spec_u32_from_le_bytes(data.subrange(28, 32)),
                base_file_record: spec_u64_from_le_bytes(data.subrange(32, 40)),
                next_attribute_id: spec_u16_from_le_bytes(data.subrange(40, 42)),
            },
        )
    }
}

/// Parses the record header at the start of `data`; `None` where `data` is
/// shorter than the 42 header bytes.
pub fn parse_record_header(data: &[u8]) -> (r: Option<FileRecordHeader>)
    ensures
        r == spec_parse_record_header(data@),
{
    if data.len() < 42 {
        return None;
    }
    Some(
        FileRecordHeader {
            magic: u32_from_le_bytes(slice_subrange(data, 0, 4)),
            usa_offset: u16_from_le_bytes(slice_subrange(data, 4, 6)),
            usa_word_count: u16_from_le_bytes(slice_subrange(data, 6, 8)),
            log_file_sequence_number: u64_from_le_bytes(slice_subrange(data, 8, 16)),
            sequence_number: u16_from_le_bytes(slice_subrange(data, 16, 18)),
            hard_link_count: u16_from_le_bytes(slice_subrange(data, 18, 20)),
            first_attribute_offset: u16_from_le_bytes(slice_subrange(data, 20, 22)),
            flags: u16_from_le_bytes(slice_subrange(data, 22, 24)),
            bytes_used: u32_from_le_bytes(slice_subrange(data, 24, 28)),
            bytes_allocated: u32_from_le_bytes(slice_subrange(data, 28, 32)),
            base_file_record: u64_from_le_bytes(slice_subrange(data, 32, 40)),
            next_attribute_id: u16_from_le_bytes(slice_subrange(data, 40, 42)),
        },
    )
}

/// One MFT file record: its parsed header over the record's raw bytes.
pub struct FileRecord<'a> {
    pub header: FileRecordHeader,
    pub data: &'a [u8],
}

impl<'a> FileRecord<'a> {
    /// The header is what parsing this record's own bytes yields.
    pub open spec fn wf(self) -> bool {
        spec_parse_record_header(self.data@) == Some(self.header)
    }

    /// Parses the record header at the start of `data`; `None` where the
    /// slice is shorter than the header.
    pub fn new(data: &'a [u8]) -> (r: Option<FileRecord<'a>>)
        ensures
            r is Some <==> spec_parse_record_header(data@) is Some,
            r is Some ==> {
                &&& r->Some_0.header == spec_parse_record_header(data@)->Some_0
                &&& r->Some_0.data@ == data@
                &&& r->Some_0.wf()
            },
    {
        match parse_record_header(data) {
            None => None,
            Some(header) => Some(FileRecord { header, data }),
        }
    }

    /// Whether the record's magic holds the ASCII bytes `FILE`.
    pub open spec fn spec_is_valid(&self) -> bool {
        self.header.magic == FILE_RECORD_MAGIC
    }

    /// Whether the record's magic holds the ASCII bytes `FILE`.
    #[verifier::when_used_as_spec(spec_is_valid)]
    pub fn is_valid(&self) -> (r: bool)
        ensures
            r == self.spec_is_valid(),
    {
        self.header.magic == FILE_RECORD_MAGIC
    }

    /// Whether the record is in use (header flag bit 0).
    pub open spec fn spec_is_used(&self) -> bool {
        self.header.flags & 0x1 != 0
    }

    /// Whether the record is in use (header flag bit 0).
    #[verifier::when_used_as_spec(spec_is_used)]
    pub fn is_used(&self) -> (r: bool)
        ensures
            r == self.spec_is_used(),
    {
        self.header.flags & 0x1 != 0
    }

    /// Whether the record describes a directory (header flag bit 1).
    pub open spec fn spec_is_directory(&self) -> bool {
        self.header.flags & 0x2 != 0
    }

    /// Whether the record describes a directory (header flag bit 1).
    #[verifier::when_used_as_spec(spec_is_directory)]
    pub fn is_directory(&self) -> (r: bool)
        ensures
            r == self.spec_is_directory(),
    {
        self.header.flags & 0x2 != 0
    }

    /// Applies the update-sequence fixup to one record in place.
    pub fn fixup(data: &mut Vec<u8>, sector_size: usize)
        ensures
            final(data)@ == spec_fixup(old(data)@, sector_size as int),
    {
        let header = match parse_record_header(data.as_slice()) {
            None => {
                return ;
            },
            Some(h) => h,
        };
        if header.magic != FILE_RECORD_MAGIC {
            return ;
        }
        let uo = header.usa_offset as usize;
        let count = header.usa_word_count as usize;
        let n = data.len();
        if sector_size < 2 || count < 1 {
            return ;
        }
        if uo > n || count > (n - uo) / 2 {
            proof {
                if uo <= n {
                    assert(2 * count > n - uo);
                }
            }
            return ;
        }
        if count - 1 > n / sector_size {
            proof {
                assert((count - 1) * sector_size > n) by (nonlinear_arith)
                    requires
                        count >= 1,
                        sector_size >= 2,
                        count - 1 > n / sector_size,
                        n >= 0,
                ;
            }
            return ;
        }
        proof {
            assert(uo + 2 * count <= n);
            assert((count - 1) * sector_size <= n) by (nonlinear_arith)
                requires
                    count >= 1,
                    sector_size >= 2,
                    count - 1 <= n / sector_size,
                    n >= 0,
            ;
            assert(spec_can_fixup(old(data)@, sector_size as int));
        }
        let mut k: usize = 0;
        while k < count - 1
            invariant
                spec_can_fixup(old(data)@, sector_size as int),
                spec_parse_record_header(old(data)@) == Some(header),
                uo == header.usa_offset,
                count == header.usa_word_count,
                1 <= count,
                2 <= sector_size,
                k <= count - 1,
                uo + 2 * count <= n,
                (count - 1) * sector_size <= n,
                n == old(data)@.len(),
                data@ == spec_fixup_upto(old(data)@, uo as int, sector_size as int, k as nat),
            decreases count - 1 - k,
        {
            proof {
                assert(2 <= (k + 1) * sector_size && k * sector_size <= (k + 1) * sector_size && (k
                    + 1) * sector_size <= (count - 1) * sector_size) by (nonlinear_arith)
                    requires
                        k >= 0,
                        k + 1 <= count - 1,
                        sector_size >= 2,
                ;
                lemma_fixup_upto_len(old(data)@, uo as int, sector_size as int, k as nat);
                assert(uo + 2 + 2 * k + 2 <= uo + 2 * count);
            }
            let src = uo + 2 + 2 * k;
            let dst = (k + 1) * sector_size - 2;
            let b0 = data[src];
            let b1 = data[src + 1];
            data[dst] = b0;
            data[dst + 1] = b1;
            k = k + 1;
        }
    }
}

/// The attribute list of a record: starting at `off`, each entry is an
/// attribute's offset and parsed header; the walk advances by each
/// attribute's length and stops at the `End` marker, at `bytes_used`, at a
/// header that does not parse, at a zero length (which would not advance),
/// or where the next offset would leave the record.
pub open spec fn spec_attr_list(data: Seq<u8>, off: int, bytes_used: int) -> Seq<
    (int, AttributeHeader),
>
    decreases data.len() - off,
{
    if off < 0 || off >= bytes_used || off > data.len() {
        Seq::empty()
    } else {
        match spec_parse_attribute_header(data.subrange(off, data.len() as int)) {
            None => Seq::empty(),
            Some(h) => {
                if h.attribute_type == AttributeType::End.spec_code() || h.length == 0 {
                    Seq::empty()
                } else {
                    if off + h.length > data.len() {
                        seq![(off, h)]
                    } else {
                        seq![(off, h)] + spec_attr_list(data, off + h.length, bytes_used)
                    }
                }
            },
        }
    }
}

/// Whether exec attribute `a` is entry `e` of the walk over `data`: the
/// parsed header, over the bytes from the entry's offset to the record's end.
pub open spec fn attr_matches(data: Seq<u8>, e: (int, AttributeHeader), a: Attribute) -> bool {
    &&& a.header == e.1
    &&& 0 <= e.0 <= data.len()
    &&& a.data@ == data.subrange(e.0, data.len() as int)
    &&& a.wf()
}

/// The first entry of `list` whose attribute type code is `code`.
pub open spec fn spec_find_attr(list: Seq<(int, AttributeHeader)>, code: u32) -> Option<
    (int, AttributeHeader),
>
    decreases list.len(),
{
    if list.len() == 0 {
        None
    } else if list.first().1.attribute_type == code {
        Some(list.first())
    } else {
        spec_find_attr(list.drop_first(), code)
    }
}

impl<'a> FileRecord<'a> {
    /// The record's attribute list as the walk over its bytes yields it.
    pub open spec fn spec_attrs(self) -> Seq<(int, AttributeHeader)> {
        spec_attr_list(
            self.data@,
            self.header.first_attribute_offset as int,
            self.header.bytes_used as int,
        )
    }

    /// Walks the record's attributes in order, stopping at the `End` marker,
    /// at `bytes_used`, or at a malformed header.
    pub fn attributes(&self) -> (r: Vec<Attribute<'a>>)
        requires
            self.wf(),
        ensures
            r@.len() == self.spec_attrs().len(),
            forall|i: int|
                0 <= i < r@.len() ==> attr_matches(self.data@, self.spec_attrs()[i], #[trigger] r@[i]),
    {
        let ghost full = self.spec_attrs();
        let data = self.data;
        let bu = self.header.bytes_used;
        let mut r: Vec<Attribute<'a>> = Vec::new();
        let mut offset: usize = self.header.first_attribute_offset as usize;
        proof {
            assert(full.subrange(0, full.len() as int) =~= full);
        }
        loop
            invariant_except_break
                spec_attr_list(data@, offset as int, bu as int) == full.subrange(
                    r@.len() as int,
                    full.len() as int,
                ),
            invariant
                full == self.spec_attrs(),
                data == self.data,
                bu == self.header.bytes_used,
                r@.len() <= full.len(),
                forall|i: int|
                    0 <= i < r@.len() ==> attr_matches(data@, full[i], #[trigger] r@[i]),
            ensures
                r@.len() == full.len(),
                forall|i: int|
                    0 <= i < r@.len() ==> attr_matches(data@, full[i], #[trigger] r@[i]),
            decreases (if (offset as int) <= (bu as int) {
                bu as int - offset
            } else {
                0
            }),
        {
            let ghost k = r@.len() as int;
            let ghost rem = spec_attr_list(data@, offset as int, bu as int);
            if offset >= bu as usize || offset > data.len() {
                proof {
                    assert(rem =~= Seq::<(int, AttributeHeader)>::empty());
                }
                break ;
            }
            let a = match Attribute::new(slice_subrange(data, offset, data.len())) {
                None => {
                    proof {
                        assert(rem =~= Seq::<(int, AttributeHeader)>::empty());
                    }
                    break ;
                },
                Some(a) => a,
            };
            if a.header.attribute_type == AttributeType::End.code() || a.header.length == 0 {
                proof {
                    assert(rem =~= Seq::<(int, AttributeHeader)>::empty());
                }
                break ;
            }
            proof {
                assert(rem.len() >= 1);
                assert(rem[0] == (offset as int, a.header));
                assert(full.subrange(k, full.len() as int)[0] == full[k]);
                assert(full[k] == rem[0]);
                assert(attr_matches(data@, full[k], a));
            }
            r.push(a);
            let len_us = a.header.length as usize;
            if len_us > data.len() - offset {
                proof {
                    assert(rem =~= seq![(offset as int, a.header)]);
                    assert(rem.len() == full.len() - k);
                }
                break ;
            }
            proof {
                let rest = spec_attr_list(data@, offset + a.header.length, bu as int);
                assert(rem =~= seq![(offset as int, a.header)] + rest);
                assert forall|i: int|
                    0 <= i < rest.len() implies full.subrange(k + 1, full.len() as int)[i]
                    == rest[i] by {
                    assert(full.subrange(k, full.len() as int)[1 + i] == full[k + 1 + i]);
                    assert(full.subrange(k + 1, full.len() as int)[i] == full[k + 1 + i]);
                }
                assert(full.subrange(k + 1, full.len() as int) =~= rest);
            }
            offset = offset + len_us;
        }
        r
    }

    /// The first attribute of the given type; `None` where the record's
    /// attribute list holds none.
    pub fn get_attribute(&self, attribute_type: AttributeType) -> (r: Option<Attribute<'a>>)
        requires
            self.wf(),
        ensures
            r is Some <==> spec_find_attr(self.spec_attrs(), attribute_type.spec_code()) is Some,
            r is Some ==> attr_matches(
                self.data@,
                spec_find_attr(self.spec_attrs(), attribute_type.spec_code())->Some_0,
                r->Some_0,
            ),
    {
        let ghost full = self.spec_attrs();
        let code = attribute_type.code();
        let attrs = self.attributes();
        let n = attrs.len();
        let mut i: usize = 0;
        proof {
            assert(full.subrange(0, full.len() as int) =~= full);
        }
        while i < n
            invariant
                n == attrs@.len(),
                code == attribute_type.spec_code(),
                full == self.spec_attrs(),
                n == full.len(),
                i <= n,
                forall|j: int|
                    0 <= j < attrs@.len() ==> attr_matches(self.data@, full[j], #[trigger] attrs@[j]),
                spec_find_attr(full, code) == spec_find_attr(
                    full.subrange(i as int, full.len() as int),
                    code,
                ),
            decreases n - i,
        {
            let ghost suffix = full.subrange(i as int, full.len() as int);
            proof {
                assert(suffix.first() == full[i as int]);
                assert(suffix.drop_first() =~= full.subrange(i + 1, full.len() as int));
            }
            if attrs[i].header.attribute_type == code {
                return Some(attrs[i]);
            }
            i = i + 1;
        }
        proof {
            assert(full.subrange(n as int, full.len() as int) =~= Seq::<
                (int, AttributeHeader),
            >::empty());
        }
        None
    }

    /// What decoding the record's data runs yields: the first `$DATA`
    /// attribute's runs; nothing where there is no `$DATA` attribute or its
    /// run stream is malformed.
    pub open spec fn spec_read_data_runs(self, bpc: nat) -> Option<(u64, Seq<DataRun>)> {
        match spec_find_attr(self.spec_attrs(), AttributeType::Data.spec_code()) {
            None => None,
            Some(e) => spec_attr_data_runs(
                e.1,
                self.data@.subrange(e.0, self.data@.len() as int),
                bpc,
            ),
        }
    }

    /// Decodes the record's `$DATA` attribute into its total size and its
    /// data runs; `RecordMalformed` where the record has no `$DATA`
    /// attribute, it is resident, or its run stream is malformed.
    pub fn read_data_runs(&self, bytes_per_cluster: usize) -> (r: Result<
        (u64, Vec<DataRun>),
        NtfsError,
    >)
        requires
            self.wf(),
        ensures
            r is Ok <==> self.spec_read_data_runs(bytes_per_cluster as nat) is Some,
            r is Ok ==> {
                let s = self.spec_read_data_runs(bytes_per_cluster as nat)->Some_0;
                r->Ok_0.0 == s.0 && r->Ok_0.1@ == s.1
            },
            r is Err ==> r->Err_0 == NtfsError::RecordMalformed,
    {
        match self.get_attribute(AttributeType::Data) {
            None => Err(NtfsError::RecordMalformed),
            Some(a) => match a.decode_data_runs(bytes_per_cluster) {
                None => Err(NtfsError::RecordMalformed),
                Some((total, runs)) => Ok((total, runs)),
            },
        }
    }

    /// The record's data size: the first `$DATA` attribute's allocated size
    /// where it is non-resident, its value length where it is resident, and
    /// zero where the record has no `$DATA` attribute.
    pub open spec fn spec_data_attribute_size(self) -> u64 {
        spec_data_size_with(self.data@, self.header)
    }

    /// The size the record's `$DATA` attribute reports; zero without one.
    pub fn get_data_attribute_size(&self) -> (r: u64)
        requires
            self.wf(),
        ensures
            r == self.spec_data_attribute_size(),
    {
        let attr = match self.get_attribute(AttributeType::Data) {
            None => {
                return 0;
            },
            Some(a) => a,
        };
        match &attr.header.tail {
            crate::file_attribute::AttributeTail::NonResident(nr) => nr.allocated_size,
            crate::file_attribute::AttributeTail::Resident(res) => res.value_length as u64,
        }
    }
}

/// Whether entry `e` of the walk is a candidate for the primary name: a
/// resident `$FILE_NAME` attribute whose value reaches the namespace byte
/// and whose file-attributes word does not mark a reparse point.
pub open spec fn spec_name_candidate(data: Seq<u8>, e: (int, AttributeHeader)) -> bool {
    let adata = data.subrange(e.0, data.len() as int);
    &&& e.1.attribute_type == AttributeType::FileName.spec_code()
    &&& e.1.tail is Resident
    &&& {
        let vo = e.1.tail->Resident_0.value_offset as int;
        &&& vo + 0x42 <= adata.len()
        &&& spec_u32_from_le_bytes(adata.subrange(vo + 0x38, vo + 0x3C)) & 0x0400 == 0
    }
}

/// Whether the candidate's namespace byte is Win32 (1) or Win32AndDOS (3).
pub open spec fn spec_preferred_namespace(data: Seq<u8>, e: (int, AttributeHeader)) -> bool {
    let adata = data.subrange(e.0, data.len() as int);
    let ns = adata[e.1.tail->Resident_0.value_offset + 0x41];
    ns == 1 || ns == 3
}

/// The name attribute the extraction chooses: the first candidate in a
/// preferred namespace, and failing that the last candidate.
pub open spec fn spec_choose_name_attr(list: Seq<(int, AttributeHeader)>, data: Seq<u8>) -> Option<
    (int, AttributeHeader),
>
    decreases list.len(),
{
    if list.len() == 0 {
        None
    } else {
        let e = list.first();
        let rest = spec_choose_name_attr(list.drop_first(), data);
        if spec_name_candidate(data, e) {
            if spec_preferred_namespace(data, e) {
                Some(e)
            } else if rest is Some {
                rest
            } else {
                Some(e)
            }
        } else {
            rest
        }
    }
}

/// The attribute list of the record whose bytes are `data` and whose parsed
/// header is `h`.
pub open spec fn spec_attr_list_of(data: Seq<u8>, h: FileRecordHeader) -> Seq<
    (int, AttributeHeader),
> {
    spec_attr_list(data, h.first_attribute_offset as int, h.bytes_used as int)
}

/// What primary-name extraction yields on record bytes `data` with parsed
/// header `h`: the chosen `$FILE_NAME` attribute's real size, parent MFT
/// index (low 48 bits of the parent reference), and decoded name.
pub open spec fn spec_destructure_with(data: Seq<u8>, h: FileRecordHeader) -> Option<
    (u64, u64, Seq<char>),
> {
    match spec_choose_name_attr(spec_attr_list_of(data, h), data) {
        None => None,
        Some(e) => {
            let adata = data.subrange(e.0, data.len() as int);
            let vo = e.1.tail->Resident_0.value_offset as int;
            let nl = adata[vo + 0x40] as int;
            if vo + 0x42 + 2 * nl > adata.len() {
                None
            } else {
                let parent = spec_u64_from_le_bytes(adata.subrange(vo, vo + 8))
                    & 0x0000_FFFF_FFFF_FFFF;
                let real_size = spec_u64_from_le_bytes(adata.subrange(vo + 0x30, vo + 0x38));
                let units = spec_utf16_units(adata.subrange(vo + 0x42, vo + 0x42 + 2 * nl));
                Some((real_size, parent, utf16_of(units)))
            }
        },
    }
}

/// The `$DATA` size of the record whose bytes are `data` and whose parsed
/// header is `h`: allocated size where non-resident, value length where
/// resident, zero without a `$DATA` attribute.
pub open spec fn spec_data_size_with(data: Seq<u8>, h: FileRecordHeader) -> u64 {
    match spec_find_attr(spec_attr_list_of(data, h), AttributeType::Data.spec_code()) {
        None => 0,
        Some(e) => match e.1.tail {
            crate::file_attribute::AttributeTail::NonResident(nr) => nr.allocated_size,
            crate::file_attribute::AttributeTail::Resident(res) => res.value_length as u64,
        },
    }
}

impl<'a> FileRecord<'a> {
    /// What primary-name extraction yields: from the chosen `$FILE_NAME`
    /// attribute, the real file size, the parent's MFT index (the low 48
    /// bits of the parent reference), and the UTF-16 name decoded to
    /// characters. Nothing where no candidate exists or the stated name
    /// length runs past the record.
    pub open spec fn spec_destructure(self) -> Option<(u64, u64, Seq<char>)> {
        spec_destructure_with(self.data@, self.header)
    }

    /// Extracts the primary Win32 name from the record's `$FILE_NAME`
    /// attributes: reparse-point instances are skipped, an attribute in the
    /// Win32 or Win32AndDOS namespace is preferred, and the last candidate
    /// serves where none is. Returns the real size, the parent MFT index,
    /// and the name.
    pub fn destructure_file_name_attribute(&self) -> (r: Option<(u64, u64, String)>)
        requires
            self.wf(),
        ensures
            r is Some <==> self.spec_destructure() is Some,
            r is Some ==> {
                let s = self.spec_destructure()->Some_0;
                r->Some_0.0 == s.0 && r->Some_0.1 == s.1 && r->Some_0.2@ == s.2
            },
    {
        let ghost full = self.spec_attrs();
        let ghost data_v = self.data@;
        let attrs = self.attributes();
        let n = attrs.len();
        let mut i: usize = 0;
        let mut sel: Option<Attribute<'a>> = None;
        let ghost mut sel_e: Option<(int, AttributeHeader)> = None;
        let mut found_preferred = false;
        proof {
            assert(full.subrange(0, full.len() as int) =~= full);
        }
        while i < n
            invariant
                self.wf(),
                full == self.spec_attrs(),
                data_v == self.data@,
                n == attrs@.len(),
                n == full.len(),
                i <= n,
                forall|j: int|
                    0 <= j < attrs@.len() ==> attr_matches(data_v, full[j], #[trigger] attrs@[j]),
                sel is Some <==> sel_e is Some,
                sel_e is Some ==> {
                    &&& attr_matches(data_v, sel_e->Some_0, sel->Some_0)
                    &&& spec_name_candidate(data_v, sel_e->Some_0)
                },
                found_preferred ==> sel_e is Some && spec_choose_name_attr(full, data_v) == sel_e,
                !found_preferred ==> spec_choose_name_attr(full, data_v) == (
                match spec_choose_name_attr(full.subrange(i as int, full.len() as int), data_v) {
                    Some(e) => Some(e),
                    None => sel_e,
                }),
            decreases n - i,
        {
            let ghost suffix = full.subrange(i as int, full.len() as int);
            proof {
                assert(suffix.first() == full[i as int]);
                assert(suffix.drop_first() =~= full.subrange(i + 1, full.len() as int));
            }
            if !found_preferred {
                let a = attrs[i];
                let mut candidate = false;
                let mut preferred = false;
                if a.header.attribute_type == AttributeType::FileName.code() {
                    match &a.header.tail {
                        crate::file_attribute::AttributeTail::Resident(res) => {
                            let vo = res.value_offset as usize;
                            if vo + 0x42 <= a.data.len() {
                                let file_flags = u32_from_le_bytes(
                                    slice_subrange(a.data, vo + 0x38, vo + 0x3C),
                                );
                                if file_flags & 0x0400 == 0 {
                                    candidate = true;
                                    let ns = a.data[vo + 0x41];
                                    preferred = ns == 1 || ns == 3;
                                }
                            }
                        },
                        crate::file_attribute::AttributeTail::NonResident(_) => {},
                    }
                }
                proof {
                    assert(candidate == spec_name_candidate(data_v, full[i as int]));
                    if candidate {
                        assert(preferred == spec_preferred_namespace(data_v, full[i as int]));
                    }
                }
                if candidate {
                    sel = Some(a);
                    proof {
                        sel_e = Some(full[i as int]);
                    }
                    if preferred {
                        found_preferred = true;
                    }
                }
            }
            i = i + 1;
        }
        proof {
            if !found_preferred {
                assert(full.subrange(n as int, full.len() as int) =~= Seq::<
                    (int, AttributeHeader),
                >::empty());
            }
            assert(spec_choose_name_attr(full, data_v) == sel_e);
        }
        let a = match sel {
            None => {
                return None;
            },
            Some(a) => a,
        };
        let ghost e = sel_e->Some_0;
        let vo = match &a.header.tail {
            crate::file_attribute::AttributeTail::Resident(res) => res.value_offset as usize,
            crate::file_attribute::AttributeTail::NonResident(_) => {
                return None;
            },
        };
        let nl = a.data[vo + 0x40] as usize;
        if 2 * nl > a.data.len() - (vo + 0x42) {
            return None;
        }
        let parent = u64_from_le_bytes(slice_subrange(a.data, vo, vo + 8)) & 0x0000_FFFF_FFFF_FFFF;
        let real_size = u64_from_le_bytes(slice_subrange(a.data, vo + 0x30, vo + 0x38));
        let base = vo + 0x42;
        let name = utf16_slice_to_string(a.data, base, nl);
        Some((real_size, parent, name))
    }
}

/// Whether the fixup applies to `s`: the header parses, the magic is valid,
/// the USA fits inside the record, and every sector tail it describes lies
/// inside the record.
pub open spec fn spec_can_fixup(s: Seq<u8>, ss: int) -> bool {
    match spec_parse_record_header(s) {
        None => false,
        Some(h) => {
            &&& h.magic == FILE_RECORD_MAGIC
            &&& h.usa_word_count >= 1
            &&& ss >= 2
            &&& h.usa_offset + 2 * h.usa_word_count <= s.len()
            &&& (h.usa_word_count - 1) * ss <= s.len()
        },
    }
}

/// One fixup step: copy the two bytes at `src` over the two bytes at `dst`,
/// reading both before writing.
pub open spec fn spec_fixup_step(s: Seq<u8>, src: int, dst: int) -> Seq<u8> {
    s.update(dst, s[src]).update(dst + 1, s[src + 1])
}

/// The record after the first `k` USA entries are applied: entry `j` copies
/// the USA replacement word at `usa_offset + 2 + 2j` over the last two bytes
/// of sector `j`.
pub open spec fn spec_fixup_upto(s: Seq<u8>, uo: int, ss: int, k: nat) -> Seq<u8>
    decreases k,
{
    if k == 0 {
        s
    } else {
        spec_fixup_step(
            spec_fixup_upto(s, uo, ss, (k - 1) as nat),
            uo + 2 + 2 * (k - 1),
            k * ss - 2,
        )
    }
}

/// What fixup leaves in the buffer: each sector's last two bytes replaced by
/// the corresponding USA word where the fixup applies; the buffer unchanged
/// where it does not (an invalid magic, or a USA that does not fit).
pub open spec fn spec_fixup(s: Seq<u8>, ss: int) -> Seq<u8> {
    if !spec_can_fixup(s, ss) {
        s
    } else {
        let h = spec_parse_record_header(s)->Some_0;
        spec_fixup_upto(s, h.usa_offset as int, ss, (h.usa_word_count - 1) as nat)
    }
}

proof fn lemma_fixup_upto_len(s: Seq<u8>, uo: int, ss: int, k: nat)
    requires
        ss >= 2,
        k * ss <= s.len(),
    ensures
        spec_fixup_upto(s, uo, ss, k).len() == s.len(),
    decreases k,
{
    if k > 0 {
        assert((k - 1) * ss <= k * ss && ss <= k * ss) by (nonlinear_arith)
            requires
                k >= 1,
                ss >= 2,
        ;
        lemma_fixup_upto_len(s, uo, ss, (k - 1) as nat);
    }
}

/// Fixup never changes a record's length.
pub proof fn lemma_spec_fixup_len(s: Seq<u8>, ss: int)
    ensures
        spec_fixup(s, ss).len() == s.len(),
{
    if spec_can_fixup(s, ss) {
        let h = spec_parse_record_header(s)->Some_0;
        let k = (h.usa_word_count - 1) as nat;
        lemma_fixup_upto_len(s, h.usa_offset as int, ss, k);
    }
}

/// Whether index `i` lies in the last two bytes of sector `j`.
pub open spec fn in_tail_at(i: int, ss: int, j: int) -> bool {
    (j + 1) * ss - 2 <= i < (j + 1) * ss
}

/// Whether index `i` lies in the last two bytes of one of the first `k`
/// sectors.
pub open spec fn in_sector_tail(i: int, ss: int, k: nat) -> bool {
    exists|j: int| 0 <= j < k && #[trigger] in_tail_at(i, ss, j)
}

/// What the first `k` fixup entries leave at each index, when every USA word
/// read lies before the first sector tail: sector tails hold the USA words,
/// and every other byte is unchanged.
proof fn lemma_fixup_upto_chars(s: Seq<u8>, uo: int, ss: int, k: nat)
    requires
        ss >= 2,
        uo >= 0,
        uo + 2 + 2 * k <= ss - 2,
        k * ss <= s.len(),
    ensures
        spec_fixup_upto(s, uo, ss, k).len() == s.len(),
        forall|j: int|
            0 <= j < k ==> {
                &&& #[trigger] spec_fixup_upto(s, uo, ss, k)[(j + 1) * ss - 2] == s[uo + 2 + 2 * j]
                &&& spec_fixup_upto(s, uo, ss, k)[(j + 1) * ss - 1] == s[uo + 3 + 2 * j]
            },
        forall|i: int|
            0 <= i < s.len() && !in_sector_tail(i, ss, k) ==> #[trigger] spec_fixup_upto(
                s,
                uo,
                ss,
                k,
            )[i] == s[i],
    decreases k,
{
    lemma_fixup_upto_len(s, uo, ss, k);
    if k > 0 {
        let prev = spec_fixup_upto(s, uo, ss, (k - 1) as nat);
        let cur = spec_fixup_upto(s, uo, ss, k);
        assert((k - 1) * ss <= k * ss && k * ss <= s.len() && ss <= k * ss) by (nonlinear_arith)
            requires
                k >= 1,
                ss >= 2,
                k * ss <= s.len(),
        ;
        lemma_fixup_upto_chars(s, uo, ss, (k - 1) as nat);
        let src = uo + 2 + 2 * (k - 1);
        let dst = k * ss - 2;
        // The source bytes lie before every sector tail, so they are
        // untouched by the earlier entries.
        assert forall|i: int| uo <= i < ss - 2 implies !(#[trigger] in_sector_tail(
            i,
            ss,
            (k - 1) as nat,
        )) by {
            assert forall|j: int| 0 <= j < k - 1 implies !in_tail_at(i, ss, j) by {
                assert(ss <= (j + 1) * ss) by (nonlinear_arith)
                    requires
                        j >= 0,
                        ss >= 2,
                ;
            }
        }
        assert(prev[src] == s[src]);
        assert(prev[src + 1] == s[src + 1]);
        // The new entry's tail does not overlap any earlier tail.
        assert forall|j: int| 0 <= j < k - 1 implies #[trigger] ((j + 1) * ss) <= dst by {
            assert((j + 1) * ss <= (k - 1) * ss) by (nonlinear_arith)
                requires
                    j + 1 <= k - 1,
                    ss >= 0,
            ;
            assert((k - 1) * ss <= k * ss - ss) by (nonlinear_arith)
                requires
                    ss >= 0,
            ;
        }
        assert(cur == spec_fixup_step(prev, src, dst));
        assert forall|j: int| 0 <= j < k implies {
            &&& #[trigger] cur[(j + 1) * ss - 2] == s[uo + 2 + 2 * j]
            &&& cur[(j + 1) * ss - 1] == s[uo + 3 + 2 * j]
        } by {
            assert(ss <= (j + 1) * ss && (j + 1) * ss <= k * ss) by (nonlinear_arith)
                requires
                    0 <= j < k,
                    ss >= 2,
            ;
            if j < k - 1 {
                assert((j + 1) * ss <= dst);
                assert(prev[(j + 1) * ss - 2] == s[uo + 2 + 2 * j]);
                assert(prev[(j + 1) * ss - 1] == s[uo + 3 + 2 * j]);
            } else {
                assert(j == k - 1);
            }
        }
        assert forall|i: int|
            0 <= i < s.len() && !in_sector_tail(i, ss, k) implies cur[i] == s[i] by {
            assert(!in_sector_tail(i, ss, (k - 1) as nat)) by {
                assert(forall|j: int|
                    0 <= j < k - 1 && #[trigger] in_tail_at(i, ss, j) ==> in_sector_tail(
                        i,
                        ss,
                        k,
                    ));
            }
            assert(!(dst <= i < dst + 2)) by {
                assert(k * ss == (k - 1 + 1) * ss) by (nonlinear_arith);
                assert(in_tail_at(i, ss, k - 1) ==> in_sector_tail(i, ss, k));
            }
        }
    }
}

/// The fixup law: on a record whose magic is valid and whose USA lies wholly
/// before the first sector tail, fixup puts USA word `j + 1` in the last two
/// bytes of sector `j` and changes nothing else; on a record whose magic is
/// not valid, fixup changes nothing.
pub proof fn lemma_fixup_replaces_sector_tails(s: Seq<u8>, ss: int)
    requires
        spec_can_fixup(s, ss),
        spec_parse_record_header(s)->Some_0.usa_offset + 2
            * spec_parse_record_header(s)->Some_0.usa_word_count <= ss - 2,
    ensures
        spec_fixup(s, ss).len() == s.len(),
        forall|j: int|
            {
                let h = spec_parse_record_header(s)->Some_0;
                0 <= j < h.usa_word_count - 1 ==> {
                    &&& #[trigger] spec_fixup(s, ss)[(j + 1) * ss - 2] == s[h.usa_offset + 2 + 2
                        * j]
                    &&& spec_fixup(s, ss)[(j + 1) * ss - 1] == s[h.usa_offset + 3 + 2 * j]
                }
            },
        forall|i: int|
            {
                let h = spec_parse_record_header(s)->Some_0;
                0 <= i < s.len() && !in_sector_tail(i, ss, (h.usa_word_count - 1) as nat)
                    ==> #[trigger] spec_fixup(s, ss)[i] == s[i]
            },
{
    let h = spec_parse_record_header(s)->Some_0;
    let k = (h.usa_word_count - 1) as nat;
    assert(k * ss <= s.len());
    lemma_fixup_upto_chars(s, h.usa_offset as int, ss, k);
}

/// Fixup leaves a record whose magic is not `FILE` untouched.
pub proof fn lemma_fixup_invalid_magic_unchanged(s: Seq<u8>, ss: int)
    requires
        spec_parse_record_header(s) is Some ==> spec_parse_record_header(s)->Some_0.magic
            != FILE_RECORD_MAGIC,
    ensures
        spec_fixup(s, ss) == s,
{
}

} // verus!
