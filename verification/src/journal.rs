//! The USN change journal: normalizing raw journal records into create,
//! delete and rename events, and the bounded FIFO that pairs a rename's
//! old-name record with its new-name partner.
//!
//! The platform ioctls that query and read the journal live in the driver;
//! this module parses the returned buffer and keeps the journal's state:
//! the last applied USN, the journal's identity, and the unmatched renames.
use vstd::prelude::*;

verus! {

use vstd::bytes::{spec_u16_from_le_bytes, spec_u32_from_le_bytes, spec_u64_from_le_bytes};
use vstd::bytes::{u16_from_le_bytes, u32_from_le_bytes, u64_from_le_bytes};
use vstd::slice::slice_subrange;
use std::collections::VecDeque;
use crate::text::spec_utf16_units;
use crate::text::utf16_of;
use crate::NtfsError;

/// The reason bit a journal record carries for a file creation.
pub const USN_REASON_FILE_CREATE: u32 = 0x0000_0100;

/// The reason bit for a file deletion.
pub const USN_REASON_FILE_DELETE: u32 = 0x0000_0200;

/// The reason bit for the old-name half of a rename.
pub const USN_REASON_RENAME_OLD_NAME: u32 = 0x0000_1000;

/// The reason bit for the new-name half of a rename.
pub const USN_REASON_RENAME_NEW_NAME: u32 = 0x0000_2000;

/// The directory bit of a journal record's file-attributes word.
pub const FILE_ATTRIBUTE_DIRECTORY: u32 = 0x0000_0010;

/// The capacity of the unmatched-renames FIFO; the oldest entry is dropped
/// silently beyond it.
pub const MAX_UNMATCHED_RENAMES: usize = 2000;

/// One normalized journal event, as the index applies it.
#[derive(Debug, Ord, PartialOrd, Eq, PartialEq)]
pub enum JournalEntry {
    FileCreate { mft_index: u64, parent_mft_index: u64, name: String, is_directory: bool },
    FileDelete(u64),
    Rename { mft_index: u64, new_name: String, new_parent_mft_index: u64 },
}

/// The mathematical form of a journal event: names as character sequences.
pub enum JournalEvent {
    Create { mft_index: u64, parent_mft_index: u64, name: Seq<char>, is_directory: bool },
    Delete { mft_index: u64 },
    Rename { mft_index: u64, new_parent_mft_index: u64, new_name: Seq<char> },
}

impl View for JournalEntry {
    type V = JournalEvent;

    open spec fn view(&self) -> JournalEvent {
        match self {
            JournalEntry::FileCreate { mft_index, parent_mft_index, name, is_directory } => {
                JournalEvent::Create {
                    mft_index: *mft_index,
                    parent_mft_index: *parent_mft_index,
                    name: name@,
                    is_directory: *is_directory,
                }
            },
            JournalEntry::FileDelete(mft_index) => {
                JournalEvent::Delete { mft_index: *mft_index }
            },
            JournalEntry::Rename { mft_index, new_name, new_parent_mft_index } => {
                JournalEvent::Rename {
                    mft_index: *mft_index,
                    new_parent_mft_index: *new_parent_mft_index,
                    new_name: new_name@,
                }
            },
        }
    }
}

impl DeepView for JournalEntry {
    type V = JournalEvent;

    open spec fn deep_view(&self) -> JournalEvent {
        self.view()
    }
}

/// The MFT index held in the low 48 bits of the 8 bytes at `o`; the upper
/// bits of a 128-bit file identifier carry the sequence number and data
/// used by other file systems.
pub open spec fn spec_mft_index_of(buf: Seq<u8>, o: int) -> u64 {
    spec_u64_from_le_bytes(buf.subrange(o, o + 8)) & 0x0000_FFFF_FFFF_FFFF
}

/// What scanning the journal records leaves behind: the unmatched-renames
/// FIFO and the events, or the FIFO as it stood at a corrupt record.
pub enum JournalScan {
    Done { renames: Seq<u64>, events: Seq<JournalEvent> },
    Corrupt { renames: Seq<u64> },
}

/// The first position of `m` in the FIFO.
pub open spec fn spec_fifo_find(fifo: Seq<u64>, m: u64) -> Option<int>
    decreases fifo.len(),
{
    if fifo.len() == 0 {
        None
    } else if fifo.first() == m {
        Some(0)
    } else {
        match spec_fifo_find(fifo.drop_first(), m) {
            None => None,
            Some(i) => Some(i + 1),
        }
    }
}

proof fn lemma_fifo_find_char(fifo: Seq<u64>, m: u64)
    ensures
        match spec_fifo_find(fifo, m) {
            None => forall|j: int| 0 <= j < fifo.len() ==> fifo[j] != m,
            Some(ix) => 0 <= ix < fifo.len() && fifo[ix] == m && forall|j: int|
                0 <= j < ix ==> fifo[j] != m,
        },
    decreases fifo.len(),
{
    if fifo.len() > 0 {
        lemma_fifo_find_char(fifo.drop_first(), m);
        assert(forall|j: int| 1 <= j < fifo.len() ==> fifo[j] == fifo.drop_first()[j - 1]);
    }
}

/// The scan over the version-3 records of a journal buffer, from offset
/// `o`: each record self-describes its length; a record of zero length or
/// of another major version is corrupt. An old-name rename pushes its MFT
/// index onto the FIFO, dropping the oldest entry beyond the capacity; a
/// creation (exactly the create bit), a deletion (delete bit set) and a
/// matched new-name rename emit events; everything else is dropped.
pub open spec fn spec_scan_records(
    buf: Seq<u8>,
    o: int,
    fifo: Seq<u64>,
    acc: Seq<JournalEvent>,
) -> JournalScan
    decreases buf.len() - o,
{
    if o >= buf.len() {
        JournalScan::Done { renames: fifo, events: acc }
    } else if o + 76 > buf.len() {
        JournalScan::Corrupt { renames: fifo }
    } else {
        let rl = spec_u32_from_le_bytes(buf.subrange(o, o + 4)) as int;
        let major = spec_u16_from_le_bytes(buf.subrange(o + 4, o + 6));
        if rl == 0 || major != 3 {
            JournalScan::Corrupt { renames: fifo }
        } else {
            let units = (spec_u16_from_le_bytes(buf.subrange(o + 72, o + 74)) as int) / 2;
            if o + 76 + 2 * units > buf.len() {
                JournalScan::Corrupt { renames: fifo }
            } else {
                let reason = spec_u32_from_le_bytes(buf.subrange(o + 56, o + 60));
                let mft = spec_mft_index_of(buf, o + 8);
                let parent = spec_mft_index_of(buf, o + 24);
                let attrs = spec_u32_from_le_bytes(buf.subrange(o + 68, o + 72));
                let name = utf16_of(spec_utf16_units(buf.subrange(o + 76, o + 76 + 2 * units)));
                let next_o = if o + rl > buf.len() {
                    buf.len() as int
                } else {
                    o + rl
                };
                if reason & USN_REASON_RENAME_OLD_NAME != 0 {
                    let trimmed = if fifo.len() >= MAX_UNMATCHED_RENAMES {
                        fifo.drop_first()
                    } else {
                        fifo
                    };
                    spec_scan_records(buf, next_o, trimmed.push(mft), acc)
                } else {
                    let is_directory = attrs & FILE_ATTRIBUTE_DIRECTORY != 0;
                    if reason & USN_REASON_FILE_CREATE == reason {
                        spec_scan_records(
                            buf,
                            next_o,
                            fifo,
                            acc.push(
                                JournalEvent::Create {
                                    mft_index: mft,
                                    parent_mft_index: parent,
                                    name,
                                    is_directory,
                                },
                            ),
                        )
                    } else if reason & USN_REASON_FILE_DELETE != 0 {
                        spec_scan_records(
                            buf,
                            next_o,
                            fifo,
                            acc.push(JournalEvent::Delete { mft_index: mft }),
                        )
                    } else if reason & USN_REASON_RENAME_NEW_NAME != 0 {
                        match spec_fifo_find(fifo, mft) {
                            None => spec_scan_records(buf, next_o, fifo, acc),
                            Some(ix) => spec_scan_records(
                                buf,
                                next_o,
                                fifo.remove(ix),
                                acc.push(
                                    JournalEvent::Rename {
                                        mft_index: mft,
                                        new_parent_mft_index: parent,
                                        new_name: name,
                                    },
                                ),
                            ),
                        }
                    } else {
                        spec_scan_records(buf, next_o, fifo, acc)
                    }
                }
            }
        }
    }
}

/// The position of the last delete of `m` in the events, if any.
pub open spec fn spec_last_delete(events: Seq<JournalEvent>, m: u64) -> Option<int>
    decreases events.len(),
{
    if events.len() == 0 {
        None
    } else {
        match events.last() {
            JournalEvent::Delete { mft_index } => {
                if mft_index == m {
                    Some(events.len() - 1)
                } else {
                    spec_last_delete(events.drop_last(), m)
                }
            },
            _ => spec_last_delete(events.drop_last(), m),
        }
    }
}

proof fn lemma_last_delete_char(events: Seq<JournalEvent>, m: u64)
    ensures
        match spec_last_delete(events, m) {
            None => forall|j: int|
                0 <= j < events.len() ==> !((#[trigger] events[j]) matches JournalEvent::Delete {
                    mft_index,
                } && mft_index == m),
            Some(dj) => {
                &&& 0 <= dj < events.len()
                &&& events[dj] matches JournalEvent::Delete { mft_index } && mft_index == m
                &&& forall|j: int|
                    dj < j < events.len() ==> !((#[trigger] events[j])
                        matches JournalEvent::Delete { mft_index } && mft_index == m)
            },
        },
    decreases events.len(),
{
    if events.len() > 0 {
        lemma_last_delete_char(events.drop_last(), m);
        assert(forall|j: int| 0 <= j < events.len() - 1 ==> events[j] == events.drop_last()[j]);
        assert(events.last() == events[events.len() - 1]);
    }
}

/// The create/delete coalescing of one batch: scanning from the front, a
/// creation followed later by a deletion of the same MFT index is removed
/// together with that deletion (the last such), so that transient scratch
/// files never reach the index.
pub open spec fn spec_coalesce_from(events: Seq<JournalEvent>, i: int) -> Seq<JournalEvent>
    decreases events.len(), events.len() - i,
{
    if i < 0 || i >= events.len() {
        events
    } else {
        match events[i] {
            JournalEvent::Create { mft_index, .. } => {
                match spec_last_delete(events.subrange(i + 1, events.len() as int), mft_index) {
                    Some(dj) => {
                        if 0 <= dj < events.len() - (i + 1) {
                            spec_coalesce_from(events.remove(i + 1 + dj).remove(i), i)
                        } else {
                            spec_coalesce_from(events, i + 1)
                        }
                    },
                    None => spec_coalesce_from(events, i + 1),
                }
            },
            _ => spec_coalesce_from(events, i + 1),
        }
    }
}

/// The batch after create/delete coalescing.
pub open spec fn spec_coalesce(events: Seq<JournalEvent>) -> Seq<JournalEvent> {
    spec_coalesce_from(events, 0)
}

/// The journal's live state: the cursor after the last applied record, the
/// journal's stable identity, and the FIFO of unmatched old-name renames.
pub struct Journal {
    pub next_usn: i64,
    pub journal_id: u64,
    pub unmatched_renames: VecDeque<u64>,
}

impl Journal {
    /// A journal cursor as first queried from the volume: no unmatched
    /// renames yet.
    pub fn new(next_usn: i64, journal_id: u64) -> (r: Journal)
        ensures
            r.next_usn == next_usn,
            r.journal_id == journal_id,
            r.unmatched_renames@ == Seq::<u64>::empty(),
    {
        Journal { next_usn, journal_id, unmatched_renames: VecDeque::new() }
    }

    /// Pairs a new-name record with the oldest matching unmatched old-name
    /// entry: the entry leaves the FIFO and the rename event is emitted;
    /// without a match the record is dropped.
    fn match_rename(&mut self, mft_index: u64, new_name: String, new_parent_mft_index: u64) -> (r:
        Option<JournalEntry>)
        ensures
            final(self).next_usn == old(self).next_usn,
            final(self).journal_id == old(self).journal_id,
            (match spec_fifo_find(old(self).unmatched_renames@, mft_index) {
                None => {
                    &&& r is None
                    &&& final(self).unmatched_renames@ == old(self).unmatched_renames@
                },
                Some(ix) => {
                    &&& final(self).unmatched_renames@ == old(self).unmatched_renames@.remove(ix)
                    &&& r == Some(
                        JournalEntry::Rename { mft_index, new_name, new_parent_mft_index },
                    )
                },
            }),
    {
        let ghost fifo = self.unmatched_renames@;
        proof {
            lemma_fifo_find_char(fifo, mft_index);
        }
        let n = self.unmatched_renames.len();
        let mut idx: usize = 0;
        while idx < n
            invariant
                self.next_usn == old(self).next_usn,
                self.journal_id == old(self).journal_id,
                fifo == old(self).unmatched_renames@,
                fifo == self.unmatched_renames@,
                n == fifo.len(),
                idx <= n,
                forall|j: int| 0 <= j < idx ==> fifo[j] != mft_index,
            decreases n - idx,
        {
            if self.unmatched_renames[idx] == mft_index {
                proof {
                    lemma_fifo_find_char(fifo, mft_index);
                    assert(spec_fifo_find(fifo, mft_index) is Some);
                    assert(spec_fifo_find(fifo, mft_index)->Some_0 == idx);
                }
                self.unmatched_renames.remove(idx);
                return Some(
                    JournalEntry::Rename { mft_index, new_name, new_parent_mft_index },
                );
            }
            idx = idx + 1;
        }
        proof {
            lemma_fifo_find_char(fifo, mft_index);
        }
        None
    }

    /// Normalizes one buffer returned by a journal read into events. The
    /// first 8 bytes carry the new cursor: zero or a regression yields an
    /// empty batch. The version-3 records follow; a record of zero length
    /// or of another major version is `JournalCorrupt`. Old-name renames
    /// feed the FIFO; creations, deletions and matched new-name renames
    /// become events, coalesced so that a creation annihilates a later
    /// deletion of the same MFT index.
    pub fn read_entries(&mut self, buffer: &[u8]) -> (r: Result<Vec<JournalEntry>, NtfsError>)
        ensures
            final(self).journal_id == old(self).journal_id,
            buffer@.len() < 8 ==> {
                &&& r is Err && r->Err_0 == NtfsError::JournalCorrupt
                &&& final(self).next_usn == old(self).next_usn
                &&& final(self).unmatched_renames@ == old(self).unmatched_renames@
            },
            buffer@.len() >= 8 ==> {
                let new_usn = #[verifier::truncate] (spec_u64_from_le_bytes(buffer@.subrange(0, 8)) as i64);
                if new_usn == 0 || new_usn < old(self).next_usn {
                    &&& r is Ok && r->Ok_0@.len() == 0
                    &&& final(self).next_usn == old(self).next_usn
                    &&& final(self).unmatched_renames@ == old(self).unmatched_renames@
                } else {
                    &&& final(self).next_usn == new_usn
                    &&& (match spec_scan_records(
                        buffer@,
                        8,
                        old(self).unmatched_renames@,
                        Seq::empty(),
                    ) {
                        JournalScan::Corrupt { renames } => {
                            &&& r is Err && r->Err_0 == NtfsError::JournalCorrupt
                            &&& final(self).unmatched_renames@ == renames
                        },
                        JournalScan::Done { renames, events } => {
                            &&& r is Ok
                            &&& final(self).unmatched_renames@ == renames
                            &&& r->Ok_0.deep_view() == spec_coalesce(events)
                        },
                    })
                }
            },
    {
        if buffer.len() < 8 {
            return Err(NtfsError::JournalCorrupt);
        }
        let next_usn: i64 = #[verifier::truncate] (u64_from_le_bytes(slice_subrange(buffer, 0, 8)) as i64);
        if next_usn == 0 || next_usn < self.next_usn {
            return Ok(Vec::new());
        }
        self.next_usn = next_usn;
        let ghost full = spec_scan_records(
            buffer@,
            8,
            self.unmatched_renames@,
            Seq::<JournalEvent>::empty(),
        );
        let mut entries: Vec<JournalEntry> = Vec::new();
        let mut offset: usize = 8;
        proof {
            assert(entries.deep_view() =~= Seq::<JournalEvent>::empty());
        }
        loop
            invariant_except_break
                full == spec_scan_records(
                    buffer@,
                    offset as int,
                    self.unmatched_renames@,
                    entries.deep_view(),
                ),
            invariant
                offset >= 8,
                buffer@.len() >= 8,
                next_usn == #[verifier::truncate] (spec_u64_from_le_bytes(
                    buffer@.subrange(0, 8),
                ) as i64),
                next_usn != 0,
                next_usn >= old(self).next_usn,
                self.next_usn == next_usn,
                self.journal_id == old(self).journal_id,
                full == spec_scan_records(
                    buffer@,
                    8,
                    old(self).unmatched_renames@,
                    Seq::<JournalEvent>::empty(),
                ),
            ensures
                full == (JournalScan::Done {
                    renames: self.unmatched_renames@,
                    events: entries.deep_view(),
                }),
            decreases buffer@.len() - offset,
        {
            if offset >= buffer.len() {
                break ;
            }
            if 76 > buffer.len() - offset {
                return Err(NtfsError::JournalCorrupt);
            }
            let o = offset;
            let rl = u32_from_le_bytes(slice_subrange(buffer, o, o + 4)) as usize;
            let major = u16_from_le_bytes(slice_subrange(buffer, o + 4, o + 6));
            if rl == 0 || major != 3 {
                return Err(NtfsError::JournalCorrupt);
            }
            let units = (u16_from_le_bytes(slice_subrange(buffer, o + 72, o + 74)) as usize) / 2;
            if units > (buffer.len() - (o + 76)) / 2 {
                proof {
                    assert(o + 76 + 2 * units > buffer@.len());
                }
                return Err(NtfsError::JournalCorrupt);
            }
            proof {
                assert(o + 76 + 2 * units <= buffer@.len());
            }
            let reason = u32_from_le_bytes(slice_subrange(buffer, o + 56, o + 60));
            let mft = u64_from_le_bytes(slice_subrange(buffer, o + 8, o + 16))
                & 0x0000_FFFF_FFFF_FFFF;
            let parent = u64_from_le_bytes(slice_subrange(buffer, o + 24, o + 32))
                & 0x0000_FFFF_FFFF_FFFF;
            let attrs = u32_from_le_bytes(slice_subrange(buffer, o + 68, o + 72));
            let ghost fifo_before = self.unmatched_renames@;
            let ghost dv_before = entries.deep_view();
            if reason & USN_REASON_RENAME_OLD_NAME != 0 {
                if self.unmatched_renames.len() >= MAX_UNMATCHED_RENAMES {
                    self.unmatched_renames.pop_front();
                }
                self.unmatched_renames.push_back(mft);
            } else {
                let is_directory = attrs & FILE_ATTRIBUTE_DIRECTORY != 0;
                if reason & USN_REASON_FILE_CREATE == reason {
                    let name = crate::text::utf16_slice_to_string(buffer, o + 76, units);
                    entries.push(
                        JournalEntry::FileCreate {
                            mft_index: mft,
                            parent_mft_index: parent,
                            name,
                            is_directory,
                        },
                    );
                    proof {
                        assert(entries.deep_view() =~= dv_before.push(
                            entries@[entries@.len() - 1]@,
                        ));
                    }
                } else if reason & USN_REASON_FILE_DELETE != 0 {
                    entries.push(JournalEntry::FileDelete(mft));
                    proof {
                        assert(entries.deep_view() =~= dv_before.push(
                            entries@[entries@.len() - 1]@,
                        ));
                    }
                } else if reason & USN_REASON_RENAME_NEW_NAME != 0 {
                    let name = crate::text::utf16_slice_to_string(buffer, o + 76, units);
                    match self.match_rename(mft, name, parent) {
                        Some(entry) => {
                            entries.push(entry);
                            proof {
                                assert(entries.deep_view() =~= dv_before.push(
                                    entries@[entries@.len() - 1]@,
                                ));
                            }
                        },
                        None => {},
                    }
                } else {
                    // A reason combination the index does not track.
                }
            }
            if rl > buffer.len() - offset {
                offset = buffer.len();
            } else {
                offset = offset + rl;
            }
        }
        // Match file creations to later deletions of the same record.
        let ghost scanned = entries.deep_view();
        let mut i: usize = 0;
        while i < entries.len()
            invariant
                i <= entries@.len(),
                spec_coalesce(scanned) == spec_coalesce_from(entries.deep_view(), i as int),
            decreases entries@.len() - i,
        {
            let ghost dv = entries.deep_view();
            let is_create_mft: Option<u64> = match &entries[i] {
                JournalEntry::FileCreate { mft_index, .. } => Some(*mft_index),
                _ => None,
            };
            match is_create_mft {
                Some(m) => {
                    let ghost tail = dv.subrange(i + 1, dv.len() as int);
                    proof {
                        lemma_last_delete_char(tail, m);
                    }
                    let mut found: Option<usize> = None;
                    let mut j: usize = entries.len();
                    while j > i + 1 && found.is_none()
                        invariant
                            i + 1 <= j <= entries@.len(),
                            dv == entries.deep_view(),
                            tail == dv.subrange(i + 1, dv.len() as int),
                            (match found {
                                None => forall|k: int|
                                    j <= k < dv.len() ==> !((#[trigger] dv[k])
                                        matches JournalEvent::Delete { mft_index } && mft_index
                                        == m),
                                Some(fj) => {
                                    &&& i + 1 <= fj < dv.len()
                                    &&& dv[fj as int] matches JournalEvent::Delete { mft_index }
                                        && mft_index == m
                                    &&& forall|k: int|
                                        fj < k < dv.len() ==> !((#[trigger] dv[k])
                                            matches JournalEvent::Delete { mft_index } && mft_index
                                            == m)
                                },
                            }),
                        decreases j,
                    {
                        j = j - 1;
                        let is_del = match &entries[j] {
                            JournalEntry::FileDelete(d) => *d == m,
                            _ => false,
                        };
                        if is_del {
                            found = Some(j);
                        }
                    }
                    match found {
                        Some(fj) => {
                            proof {
                                assert(forall|k: int|
                                    0 <= k < tail.len() ==> #[trigger] tail[k] == dv[i + 1 + k]);
                                let dj0 = fj - (i + 1);
                                assert(tail[dj0 as int] == dv[fj as int]);
                                assert(tail[dj0 as int] matches JournalEvent::Delete { mft_index }
                                    && mft_index == m);
                                assert(spec_last_delete(tail, m) is Some);
                                let dj = spec_last_delete(tail, m)->Some_0;
                                assert(tail[dj] matches JournalEvent::Delete { mft_index }
                                    && mft_index == m);
                                if dj < dj0 {
                                    assert(false);
                                }
                                if dj > dj0 {
                                    assert(dv[i + 1 + dj] == tail[dj]);
                                    assert(false);
                                }
                                assert(i + 1 + dj == fj);
                            }
                            entries.remove(fj);
                            let ghost dv_mid = entries.deep_view();
                            proof {
                                assert(dv_mid =~= dv.remove(fj as int));
                            }
                            entries.remove(i);
                            proof {
                                assert(entries.deep_view() =~= dv.remove(fj as int).remove(
                                    i as int,
                                ));
                            }
                        },
                        None => {
                            proof {
                                assert(forall|k: int|
                                    0 <= k < tail.len() ==> tail[k] == dv[i + 1 + k]);
                                assert(spec_last_delete(tail, m) is None);
                            }
                            i = i + 1;
                        },
                    }
                },
                None => {
                    i = i + 1;
                },
            }
        }
        proof {
            assert(spec_coalesce_from(entries.deep_view(), entries@.len() as int)
                == entries.deep_view());
        }
        Ok(entries)
    }
}

} // verus!
