use ntfs_index::file_attribute::{decode_run_list, Attribute, AttributeType, DataRun};
use ntfs_index::file_record::FileRecord;
use ntfs_index::index::{
    decode_mft_buffer, distribute_runs_to_cpus, worker_count, FileInfo, NtfsVolumeIndex,
};
use ntfs_index::journal::{Journal, JournalEntry};
use ntfs_index::mft::MftFile;
use ntfs_index::volume::Volume;
use ntfs_index::NtfsError;

const RECORD_SIZE: usize = 1024;
const SECTOR_SIZE: usize = 512;
const BPC: usize = 4096;

fn put_u16(b: &mut [u8], o: usize, v: u16) {
    b[o..o + 2].copy_from_slice(&v.to_le_bytes());
}

fn put_u32(b: &mut [u8], o: usize, v: u32) {
    b[o..o + 4].copy_from_slice(&v.to_le_bytes());
}

fn put_u64(b: &mut [u8], o: usize, v: u64) {
    b[o..o + 8].copy_from_slice(&v.to_le_bytes());
}

/// A resident $FILE_NAME attribute with the given parent reference, real
/// size, file-attribute flags, namespace byte and name.
fn file_name_attr(parent: u64, real_size: u64, file_flags: u32, namespace: u8, name: &str) -> Vec<u8> {
    let units: Vec<u16> = name.encode_utf16().collect();
    let value_len = 0x42 + 2 * units.len();
    let attr_len = (24 + value_len + 7) / 8 * 8;
    let mut a = vec![0u8; attr_len];
    put_u32(&mut a, 0, 0x30);
    put_u32(&mut a, 4, attr_len as u32);
    a[8] = 0;
    put_u32(&mut a, 16, value_len as u32);
    put_u16(&mut a, 20, 24);
    let v = 24;
    put_u64(&mut a, v, parent);
    put_u64(&mut a, v + 0x30, real_size);
    put_u32(&mut a, v + 0x38, file_flags);
    a[v + 0x40] = units.len() as u8;
    a[v + 0x41] = namespace;
    for (i, u) in units.iter().enumerate() {
        put_u16(&mut a, v + 0x42 + 2 * i, *u);
    }
    a
}

/// A non-resident $DATA attribute with the given sizes and raw run stream.
fn data_attr_nonresident(allocated: u64, real: u64, runs: &[u8]) -> Vec<u8> {
    let attr_len = (64 + runs.len() + 7) / 8 * 8;
    let mut a = vec![0u8; attr_len];
    put_u32(&mut a, 0, 0x80);
    put_u32(&mut a, 4, attr_len as u32);
    a[8] = 1;
    put_u16(&mut a, 32, 64);
    put_u64(&mut a, 40, allocated);
    put_u64(&mut a, 48, real);
    put_u64(&mut a, 56, real);
    a[64..64 + runs.len()].copy_from_slice(runs);
    a
}

/// One record-sized buffer with the `FILE` magic, the given header flags,
/// and the given attributes followed by the end marker.
fn record(flags: u16, attrs: &[Vec<u8>]) -> Vec<u8> {
    let mut r = vec![0u8; RECORD_SIZE];
    r[0..4].copy_from_slice(b"FILE");
    put_u16(&mut r, 4, 42);
    put_u16(&mut r, 6, 3);
    put_u16(&mut r, 20, 56);
    put_u16(&mut r, 22, flags);
    let mut o = 56;
    for a in attrs {
        r[o..o + a.len()].copy_from_slice(a);
        o += a.len();
    }
    put_u32(&mut r, o, 0xFFFF_FFFF);
    o += 8;
    put_u32(&mut r, 24, o as u32);
    r
}

/// The index of scenario three: root at slot 5 (named "."), "dir" at slot 6
/// under the root, "file.bin" at slot 7 under "dir" with 1024 data bytes,
/// and "dir2" at slot 9 under the root.
fn three_record_index() -> NtfsVolumeIndex {
    let mut buffer = Vec::new();
    for _ in 0..5 {
        buffer.extend_from_slice(&vec![0u8; RECORD_SIZE]);
    }
    buffer.extend_from_slice(&record(0x3, &[file_name_attr(5, 0, 0, 3, ".")]));
    buffer.extend_from_slice(&record(0x3, &[file_name_attr(5, 0, 0, 1, "dir")]));
    buffer.extend_from_slice(&record(
        0x1,
        &[
            file_name_attr(6, 900, 0, 1, "file.bin"),
            data_attr_nonresident(1024, 1000, &[0x11, 0x01, 0x01, 0x00]),
        ],
    ));
    buffer.extend_from_slice(&vec![0u8; RECORD_SIZE]);
    buffer.extend_from_slice(&record(0x3, &[file_name_attr(5, 0, 0, 1, "dir2")]));
    let infos = decode_mft_buffer(&buffer, RECORD_SIZE, SECTOR_SIZE);
    NtfsVolumeIndex::new(Volume { id: 'c' }, infos)
}

/// One version-3 USN record.
fn usn_record(reason: u32, mft: u64, parent: u64, attrs: u32, name: &str) -> Vec<u8> {
    let units: Vec<u16> = name.encode_utf16().collect();
    let len = (76 + 2 * units.len() + 7) / 8 * 8;
    let mut r = vec![0u8; len];
    put_u32(&mut r, 0, len as u32);
    put_u16(&mut r, 4, 3);
    put_u64(&mut r, 8, mft);
    put_u64(&mut r, 24, parent);
    put_u32(&mut r, 56, reason);
    put_u32(&mut r, 68, attrs);
    put_u16(&mut r, 72, (2 * units.len()) as u16);
    put_u16(&mut r, 74, 76);
    for (i, u) in units.iter().enumerate() {
        put_u16(&mut r, 76 + 2 * i, *u);
    }
    r
}

fn usn_buffer(next: i64, records: &[Vec<u8>]) -> Vec<u8> {
    let mut b = Vec::new();
    b.extend_from_slice(&next.to_le_bytes());
    for r in records {
        b.extend_from_slice(r);
    }
    b
}

const REASON_CREATE: u32 = 0x100;
const REASON_DELETE: u32 = 0x200;
const REASON_OLD: u32 = 0x1000;
const REASON_NEW: u32 = 0x2000;
const ATTR_DIR: u32 = 0x10;

#[test]
fn single_record_file() {
    let buffer = record(0x1, &[file_name_attr(5, 17, 0, 1, "hello.txt")]);
    let mut with_used = buffer.clone();
    put_u32(&mut with_used, 24, 200);
    let infos = decode_mft_buffer(&with_used, RECORD_SIZE, SECTOR_SIZE);
    assert_eq!(infos.len(), 1);
    let f = infos[0].as_ref().expect("entry must decode");
    assert_eq!(f.name, "hello.txt");
    assert_eq!(f.parent, 5);
    assert_eq!(f.size(), 17);
    assert!(!f.is_directory());
}

#[test]
fn single_record_directory() {
    let buffer = record(0x3, &[file_name_attr(5, 17, 0, 1, "hello.txt")]);
    let infos = decode_mft_buffer(&buffer, RECORD_SIZE, SECTOR_SIZE);
    assert_eq!(infos.len(), 1);
    let f = infos[0].as_ref().expect("entry must decode");
    assert_eq!(f.size(), 0);
    assert!(f.is_directory());
}

#[test]
fn unused_record_is_skipped() {
    let buffer = record(0x0, &[file_name_attr(5, 17, 0, 1, "gone.txt")]);
    let infos = decode_mft_buffer(&buffer, RECORD_SIZE, SECTOR_SIZE);
    assert_eq!(infos.len(), 1);
    assert!(infos[0].is_none());
}

#[test]
fn three_records_full_path() {
    let index = three_record_index();
    let f = index.find_by_index(7).expect("slot 7 is live");
    assert_eq!(index.compute_full_path(f), "C:\\dir\\file.bin");
    assert_eq!(f.size(), 1024);
    let d = index.find_by_index(6).expect("slot 6 is live");
    assert_eq!(index.compute_full_path(d), "C:\\dir");
    assert!(d.is_directory());
}

#[test]
fn find_by_index_bounds() {
    let index = three_record_index();
    assert!(index.find_by_index(index.file_info_count() as u64).is_none());
    let root = index.find_by_index(5).expect("the root is live");
    assert_eq!(root.name, ".");
    assert_eq!(root.parent, 5);
    assert!(root.is_directory());
}

#[test]
fn iter_with_parents_chain() {
    let index = three_record_index();
    let f = index.find_by_index(7).expect("slot 7 is live");
    let chain = index.iter_with_parents(f);
    let names: Vec<&str> = chain.iter().map(|e| e.name.as_str()).collect();
    assert_eq!(names, ["file.bin", "dir"]);
}

#[test]
fn counts_and_iteration() {
    let index = three_record_index();
    assert_eq!(index.file_info_count(), 10);
    assert_eq!(index.real_file_count(), 4);
    let live: Vec<usize> = index
        .iter()
        .iter()
        .enumerate()
        .filter(|(_, e)| e.is_some())
        .map(|(i, _)| i)
        .collect();
    assert_eq!(live, [5, 6, 7, 9]);
}

#[test]
fn journal_create_then_delete_coalesced() {
    let mut journal = Journal::new(100, 7);
    let buffer = usn_buffer(
        200,
        &[
            usn_record(REASON_CREATE, 9, 6, 0, "tmp"),
            usn_record(REASON_DELETE, 9, 6, 0, "tmp"),
        ],
    );
    let events = journal.read_entries(&buffer).expect("batch parses");
    assert!(events.is_empty());

    let mut index = three_record_index();
    index.process_journal_entries(&[
        JournalEntry::FileCreate {
            mft_index: 9,
            parent_mft_index: 6,
            name: "tmp".to_string(),
            is_directory: false,
        },
        JournalEntry::FileDelete(9),
    ]);
    assert!(index.find_by_index(9).is_none());
}

#[test]
fn journal_rename_and_create() {
    let mut journal = Journal::new(100, 7);
    let buffer = usn_buffer(
        300,
        &[
            usn_record(REASON_OLD, 9, 5, ATTR_DIR, "dir2"),
            usn_record(REASON_CREATE, 10, 6, 0, "x"),
            usn_record(REASON_NEW, 9, 5, ATTR_DIR, "moved"),
        ],
    );
    let events = journal.read_entries(&buffer).expect("batch parses");
    assert_eq!(events.len(), 2);
    assert_eq!(
        events[0],
        JournalEntry::FileCreate {
            mft_index: 10,
            parent_mft_index: 6,
            name: "x".to_string(),
            is_directory: false,
        }
    );
    assert_eq!(
        events[1],
        JournalEntry::Rename {
            mft_index: 9,
            new_name: "moved".to_string(),
            new_parent_mft_index: 5,
        }
    );

    let mut index = three_record_index();
    index.process_journal_entries(&events);
    let x = index.find_by_index(10).expect("slot 10 created");
    assert_eq!(x.name, "x");
    assert_eq!(x.parent, 6);
    let moved = index.find_by_index(9).expect("slot 9 still live");
    assert_eq!(moved.name, "moved");
    assert_eq!(moved.parent, 5);
    assert!(moved.is_directory());
}

#[test]
fn journal_empty_batch_changes_nothing() {
    let mut index = three_record_index();
    let before: Vec<Option<(String, u64, u64)>> = index
        .iter()
        .iter()
        .map(|e| {
            e.as_ref()
                .map(|f| (f.name.clone(), f.parent, f.size_and_directory))
        })
        .collect();
    index.process_journal_entries(&[]);
    let after: Vec<Option<(String, u64, u64)>> = index
        .iter()
        .iter()
        .map(|e| {
            e.as_ref()
                .map(|f| (f.name.clone(), f.parent, f.size_and_directory))
        })
        .collect();
    assert_eq!(before, after);
}

#[test]
fn journal_replay_is_idempotent_per_event() {
    let mut once = three_record_index();
    let batch = [JournalEntry::FileCreate {
        mft_index: 11,
        parent_mft_index: 6,
        name: "again".to_string(),
        is_directory: false,
    }];
    once.process_journal_entries(&batch);
    let mut twice = three_record_index();
    twice.process_journal_entries(&batch);
    twice.process_journal_entries(&batch);
    assert_eq!(once.find_by_index(11).unwrap().name, "again");
    assert_eq!(twice.find_by_index(11).unwrap().name, "again");
    assert_eq!(twice.find_by_index(11).unwrap().parent, 6);
    assert_eq!(once.file_info_count(), twice.file_info_count());
}

#[test]
fn create_on_occupied_slot_is_skipped() {
    let mut index = three_record_index();
    index.process_journal_entries(&[JournalEntry::FileCreate {
        mft_index: 6,
        parent_mft_index: 5,
        name: "usurper".to_string(),
        is_directory: false,
    }]);
    assert_eq!(index.find_by_index(6).unwrap().name, "dir");
}

#[test]
fn create_with_missing_parent_is_skipped() {
    let mut index = three_record_index();
    index.process_journal_entries(&[JournalEntry::FileCreate {
        mft_index: 11,
        parent_mft_index: 42,
        name: "orphan".to_string(),
        is_directory: false,
    }]);
    assert!(index.find_by_index(11).is_none());
}

#[test]
fn journal_zero_length_record_is_corrupt() {
    let mut journal = Journal::new(100, 7);
    let mut bad = usn_record(REASON_CREATE, 9, 6, 0, "tmp");
    put_u32(&mut bad, 0, 0);
    let buffer = usn_buffer(200, &[bad]);
    assert_eq!(journal.read_entries(&buffer), Err(NtfsError::JournalCorrupt));
}

#[test]
fn journal_wrong_major_version_is_corrupt() {
    let mut journal = Journal::new(100, 7);
    let mut bad = usn_record(REASON_CREATE, 9, 6, 0, "tmp");
    put_u16(&mut bad, 4, 2);
    let buffer = usn_buffer(200, &[bad]);
    assert_eq!(journal.read_entries(&buffer), Err(NtfsError::JournalCorrupt));
}

#[test]
fn journal_regressing_usn_yields_empty_batch() {
    let mut journal = Journal::new(100, 7);
    let buffer = usn_buffer(50, &[usn_record(REASON_CREATE, 9, 6, 0, "tmp")]);
    let events = journal.read_entries(&buffer).expect("regression is not an error");
    assert!(events.is_empty());
    let buffer = usn_buffer(0, &[]);
    let events = journal.read_entries(&buffer).expect("zero cursor is not an error");
    assert!(events.is_empty());
}

#[test]
fn journal_unmatched_new_name_is_dropped() {
    let mut journal = Journal::new(100, 7);
    let buffer = usn_buffer(200, &[usn_record(REASON_NEW, 9, 5, 0, "moved")]);
    let events = journal.read_entries(&buffer).expect("batch parses");
    assert!(events.is_empty());
}

#[test]
fn journal_rename_fifo_ages_out() {
    let mut journal = Journal::new(100, 7);
    let mut records: Vec<Vec<u8>> = Vec::new();
    for m in 1..=2001u64 {
        records.push(usn_record(REASON_OLD, m, 5, 0, "old"));
    }
    records.push(usn_record(REASON_NEW, 1, 5, 0, "late"));
    records.push(usn_record(REASON_NEW, 2, 5, 0, "kept"));
    let buffer = usn_buffer(400, &records);
    let events = journal.read_entries(&buffer).expect("batch parses");
    assert_eq!(
        events,
        [JournalEntry::Rename {
            mft_index: 2,
            new_name: "kept".to_string(),
            new_parent_mft_index: 5,
        }]
    );
}

#[test]
fn find_by_name_matches_sequential_scan() {
    let mut infos: Vec<Option<FileInfo>> = Vec::new();
    let mut state: u64 = 0x12345;
    let mut names: Vec<String> = Vec::new();
    for i in 0..10_000u64 {
        state = state
            .wrapping_mul(6364136223846793005)
            .wrapping_add(1442695040888963407);
        let name = format!("f{}", state % 500);
        names.push(name.clone());
        infos.push(Some(FileInfo::new(i, false, 5, name)));
    }
    let index = NtfsVolumeIndex::new(Volume { id: 'd' }, infos);
    for probe in ["f0", "f123", "f499", "missing"] {
        let expected = names.iter().position(|n| n == probe);
        let got = index.find_by_name(probe);
        match expected {
            None => assert!(got.is_none()),
            Some(i) => {
                let f = got.expect("a live entry carries the name");
                assert_eq!(f.size(), i as u64);
                assert_eq!(f.name, probe);
            }
        }
    }
}

#[test]
fn run_list_single_terminator() {
    let runs = decode_run_list(&[0u8], 0, BPC).expect("a lone terminator is a valid stream");
    assert!(runs.is_empty());

    let attr_bytes = data_attr_nonresident(0, 0, &[0]);
    let attr = Attribute::new(&attr_bytes).expect("header parses");
    let (total, list) = attr.decode_data_runs(BPC).expect("zero-size data decodes");
    assert_eq!(total, 0);
    assert!(list.is_empty());
}

#[test]
fn run_list_round_trip_with_negative_delta() {
    // Two runs: 3 clusters at cluster 256, then 2 clusters 8 clusters back.
    let stream = [0x21, 0x03, 0x00, 0x01, 0x11, 0x02, 0xF8, 0x00];
    let runs = decode_run_list(&stream, 0, BPC).expect("stream decodes");
    assert_eq!(
        runs,
        [
            DataRun {
                start: 256 * BPC,
                end: 259 * BPC,
            },
            DataRun {
                start: 248 * BPC,
                end: 250 * BPC,
            },
        ]
    );
}

#[test]
fn run_list_missing_terminator_is_malformed() {
    assert!(decode_run_list(&[0x21, 0x03, 0x00], 0, BPC).is_none());
    assert!(decode_run_list(&[], 0, BPC).is_none());
}

#[test]
fn record_without_data_attribute_is_malformed() {
    let buffer = record(0x1, &[file_name_attr(5, 17, 0, 1, "hello.txt")]);
    let rec = FileRecord::new(&buffer).expect("header parses");
    assert_eq!(rec.read_data_runs(BPC), Err(NtfsError::RecordMalformed));
}

#[test]
fn fixup_replaces_sector_tails() {
    let mut buffer = record(0x1, &[file_name_attr(5, 17, 0, 1, "hello.txt")]);
    // The USA: the signature word, then one replacement word per sector.
    buffer[42] = 0xAA;
    buffer[43] = 0xBB;
    buffer[44] = 0x11;
    buffer[45] = 0x22;
    buffer[46] = 0x33;
    buffer[47] = 0x44;
    buffer[510] = 0xAA;
    buffer[511] = 0xBB;
    buffer[1022] = 0xAA;
    buffer[1023] = 0xBB;
    let mut fixed = buffer.clone();
    FileRecord::fixup(&mut fixed, SECTOR_SIZE);
    assert_eq!(&fixed[510..512], &[0x11, 0x22]);
    assert_eq!(&fixed[1022..1024], &[0x33, 0x44]);
    for i in 0..buffer.len() {
        if i != 510 && i != 511 && i != 1022 && i != 1023 {
            assert_eq!(fixed[i], buffer[i]);
        }
    }
}

#[test]
fn fixup_leaves_invalid_magic_untouched() {
    let mut buffer = record(0x1, &[file_name_attr(5, 17, 0, 1, "hello.txt")]);
    buffer[0] = b'B';
    let before = buffer.clone();
    FileRecord::fixup(&mut buffer, SECTOR_SIZE);
    assert_eq!(buffer, before);
}

#[test]
fn partition_single_cpu_reads_all_runs() {
    let runs = vec![
        DataRun { start: 0, end: 2 * BPC },
        DataRun {
            start: 10 * BPC,
            end: 13 * BPC,
        },
    ];
    let groups = distribute_runs_to_cpus(5 * BPC, runs.clone(), 1, BPC);
    assert_eq!(groups.len(), 1);
    assert_eq!(groups[0], runs);
}

#[test]
fn partition_splits_on_cluster_boundary() {
    let runs = vec![DataRun { start: 0, end: 8 * BPC }];
    let groups = distribute_runs_to_cpus(8 * BPC, runs, 2, BPC);
    assert_eq!(groups.len(), 2);
    assert_eq!(groups[0], [DataRun { start: 0, end: 4 * BPC }]);
    assert_eq!(
        groups[1],
        [DataRun {
            start: 4 * BPC,
            end: 8 * BPC,
        }]
    );
}

#[test]
fn trailing_partial_chunk_is_ignored() {
    let mut buffer = record(0x1, &[file_name_attr(5, 17, 0, 1, "hello.txt")]);
    buffer.extend_from_slice(&vec![0u8; RECORD_SIZE / 2]);
    let infos = decode_mft_buffer(&buffer, RECORD_SIZE, SECTOR_SIZE);
    assert_eq!(infos.len(), 1);
    assert!(infos[0].is_some());
}

#[test]
fn namespace_preference_picks_win32_name() {
    let buffer = record(
        0x1,
        &[
            file_name_attr(5, 17, 0, 2, "HELLO~1.TXT"),
            file_name_attr(5, 17, 0, 1, "hello.txt"),
        ],
    );
    let infos = decode_mft_buffer(&buffer, RECORD_SIZE, SECTOR_SIZE);
    assert_eq!(infos[0].as_ref().unwrap().name, "hello.txt");
}

#[test]
fn reparse_point_names_are_skipped() {
    let buffer = record(
        0x1,
        &[
            file_name_attr(5, 17, 0x0400, 1, "reparse.lnk"),
            file_name_attr(5, 17, 0, 2, "PLAIN~1.TXT"),
        ],
    );
    let infos = decode_mft_buffer(&buffer, RECORD_SIZE, SECTOR_SIZE);
    assert_eq!(infos[0].as_ref().unwrap().name, "PLAIN~1.TXT");
}

#[test]
fn mft_file_decodes_its_own_runs() {
    let raw = record(
        0x1,
        &[
            file_name_attr(5, 0, 0, 1, "$MFT"),
            data_attr_nonresident(16 * BPC as u64, 16 * BPC as u64, &[0x11, 0x10, 0x04, 0x00]),
        ],
    );
    let mft = MftFile::new(raw, SECTOR_SIZE).expect("the record parses");
    let rec = mft.as_record();
    assert!(rec.is_valid());
    let (total, runs) = rec.read_data_runs(BPC).expect("the data attribute decodes");
    assert_eq!(total, 16 * BPC as u64);
    assert_eq!(
        runs,
        [DataRun {
            start: 4 * BPC,
            end: 20 * BPC,
        }]
    );
}

#[test]
fn get_attribute_finds_first_of_type() {
    let buffer = record(
        0x1,
        &[
            file_name_attr(5, 17, 0, 1, "hello.txt"),
            data_attr_nonresident(1024, 1000, &[0x11, 0x01, 0x01, 0x00]),
        ],
    );
    let rec = FileRecord::new(&buffer).expect("header parses");
    assert!(rec.get_attribute(AttributeType::FileName).is_some());
    assert!(rec.get_attribute(AttributeType::Data).is_some());
    assert!(rec.get_attribute(AttributeType::Bitmap).is_none());
    assert_eq!(rec.attributes().len(), 2);
    assert_eq!(rec.get_data_attribute_size(), 1024);
}

#[test]
fn worker_count_is_at_least_one() {
    assert!(worker_count() >= 1);
}

#[test]
fn non_ascii_names_survive_decoding() {
    let buffer = record(0x1, &[file_name_attr(5, 1, 0, 1, "naïve—файл.txt")]);
    let infos = decode_mft_buffer(&buffer, RECORD_SIZE, SECTOR_SIZE);
    assert_eq!(infos[0].as_ref().unwrap().name, "naïve—файл.txt");
}

#[test]
fn create_with_extra_reason_bits_is_dropped() {
    let mut journal = Journal::new(100, 7);
    // The create bit together with another reason is not "exactly a create".
    let buffer = usn_buffer(200, &[usn_record(REASON_CREATE | 0x8000_0000, 9, 6, 0, "x")]);
    let events = journal.read_entries(&buffer).expect("batch parses");
    assert!(events.is_empty());
}

#[test]
fn run_header_with_zero_offset_width_is_malformed() {
    // Low nibble 1 (count width), high nibble 0 (no offset field).
    assert!(decode_run_list(&[0x01, 0x03, 0x00], 0, BPC).is_none());
}

#[test]
fn full_paths_never_double_the_separator() {
    let index = three_record_index();
    for slot in [5u64, 6, 7, 9] {
        let f = index.find_by_index(slot).expect("slot is live");
        let path = index.compute_full_path(f);
        assert!(path.starts_with("C:\\"));
        assert!(!path.contains("\\\\"));
    }
}
