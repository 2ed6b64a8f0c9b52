//! The in-memory index of a volume: one compact entry per live MFT record,
//! addressed by record number, with lookup by index or name, path
//! reconstruction, and application of change-journal events.
use vstd::prelude::*;
use rayon::iter::{IndexedParallelIterator, IntoParallelRefIterator, ParallelIterator};
use vstd::string::StringExecFns;

verus! {

use crate::volume::{Volume, spec_upper, ascii_upper};
use crate::file_attribute::DataRun;
use crate::journal::JournalEntry;
use crate::file_record::{
    FileRecord, FILE_RECORD_MAGIC, parse_record_header, spec_parse_record_header, spec_fixup,
    spec_destructure_with, spec_data_size_with, lemma_spec_fixup_len,
};
use vstd::slice::{slice_subrange, slice_to_vec};

/// The MFT index of the volume root; its parent is itself.
pub const ROOT_INDEX: u64 = 5;

/// The mask of the size bits in the packed size word; the top bit holds the
/// directory flag.
pub const SIZE_MASK: u64 = 0x7FFF_FFFF_FFFF_FFFF;

/// One live file or directory: its primary name, the MFT index of its
/// parent directory, and its logical size packed with the directory bit in
/// one word (the top bit is the directory flag).
#[derive(Debug)]
pub struct FileInfo {
    pub name: String,
    pub parent: u64,
    pub size_and_directory: u64,
}

impl FileInfo {
    /// The logical size in bytes: the packed word without its top bit.
    pub open spec fn spec_size(&self) -> u64 {
        self.size_and_directory & SIZE_MASK
    }

    /// Whether the entry is a directory: the packed word's top bit.
    pub open spec fn spec_is_directory(&self) -> bool {
        self.size_and_directory & 0x8000_0000_0000_0000 != 0
    }

    /// Packs a new entry. The size must leave the top bit free; directories
    /// report size 0 by convention of the decoder, not of this constructor.
    pub fn new(size: u64, is_directory: bool, parent: u64, name: String) -> (r: FileInfo)
        requires
            size <= SIZE_MASK,
        ensures
            r.spec_size() == size,
            r.spec_is_directory() == is_directory,
            r.parent == parent,
            r.name == name,
            r.size_and_directory == (if is_directory {
                size | 0x8000_0000_0000_0000u64
            } else {
                size
            }),
    {
        let word: u64 = if is_directory {
            size | 0x8000_0000_0000_0000
        } else {
            size
        };
        proof {
            if is_directory {
                assert((size | 0x8000_0000_0000_0000u64) & 0x7FFF_FFFF_FFFF_FFFFu64 == size
                    && (size | 0x8000_0000_0000_0000u64) & 0x8000_0000_0000_0000u64 != 0)
                    by (bit_vector)
                    requires
                        size <= 0x7FFF_FFFF_FFFF_FFFFu64,
                ;
            } else {
                assert(size & 0x7FFF_FFFF_FFFF_FFFFu64 == size && size & 0x8000_0000_0000_0000u64
                    == 0) by (bit_vector)
                    requires
                        size <= 0x7FFF_FFFF_FFFF_FFFFu64,
                ;
            }
        }
        FileInfo { name, parent, size_and_directory: word }
    }

    /// The logical size in bytes.
    #[verifier::when_used_as_spec(spec_size)]
    pub fn size(&self) -> (r: u64)
        ensures
            r == self.spec_size(),
    {
        self.size_and_directory & SIZE_MASK
    }

    /// Whether the entry is a directory.
    #[verifier::when_used_as_spec(spec_is_directory)]
    pub fn is_directory(&self) -> (r: bool)
        ensures
            r == self.spec_is_directory(),
    {
        self.size_and_directory & 0x8000_0000_0000_0000 != 0
    }
}

impl Clone for FileInfo {
    /// An exact copy, field for field.
    fn clone(&self) -> (r: FileInfo)
        ensures
            r == *self,
    {
        let r = FileInfo {
            name: self.name.clone(),
            parent: self.parent,
            size_and_directory: self.size_and_directory,
        };
        proof {
            assert(r.name == self.name);
        }
        r
    }
}

/// Whether slot `i` of the table is live.
pub open spec fn spec_live(infos: Seq<Option<FileInfo>>, i: int) -> bool {
    0 <= i < infos.len() && infos[i] is Some
}

/// The index over one volume: the file table addressed by MFT record
/// number, with empty slots for records that are unused or were skipped.
pub struct NtfsVolumeIndex {
    pub volume: Volume,
    pub infos: Vec<Option<FileInfo>>,
}

impl NtfsVolumeIndex {
    /// Wraps a decoded file table for the given volume.
    pub fn new(volume: Volume, infos: Vec<Option<FileInfo>>) -> (r: NtfsVolumeIndex)
        ensures
            r.volume == volume,
            r.infos@ == infos@,
    {
        NtfsVolumeIndex { volume, infos }
    }

    /// The entry at MFT index `index`: `None` for empty slots and for
    /// indices at or past the table's end.
    pub fn find_by_index(&self, index: u64) -> (r: Option<&FileInfo>)
        ensures
            r is Some <==> spec_live(self.infos@, index as int),
            r is Some ==> *r->Some_0 == self.infos@[index as int]->Some_0,
    {
        if index >= self.infos.len() as u64 {
            return None;
        }
        match &self.infos[index as usize] {
            Some(f) => Some(f),
            None => None,
        }
    }

    /// The volume this index describes.
    pub fn volume(&self) -> (r: Volume)
        ensures
            r == self.volume,
    {
        self.volume
    }

    /// The table's length: one slot per MFT record, empty slots included.
    pub fn file_info_count(&self) -> (r: usize)
        ensures
            r == self.infos@.len(),
    {
        self.infos.len()
    }

    /// The whole table in record order, empty slots included.
    pub fn iter(&self) -> (r: &Vec<Option<FileInfo>>)
        ensures
            r@ == self.infos@,
    {
        &self.infos
    }

    /// The number of live entries.
    pub fn real_file_count(&self) -> (r: usize)
        ensures
            r == spec_live_count(self.infos@),
    {
        let n = self.infos.len();
        let mut count: usize = 0;
        let mut i: usize = 0;
        proof {
            assert(self.infos@.take(0) =~= Seq::<Option<FileInfo>>::empty());
        }
        while i < n
            invariant
                n == self.infos@.len(),
                i <= n,
                count == spec_live_count(self.infos@.take(i as int)),
                count <= i,
            decreases n - i,
        {
            proof {
                assert(self.infos@.take(i + 1).drop_last() =~= self.infos@.take(i as int));
                assert(self.infos@.take(i + 1).last() == self.infos@[i as int]);
            }
            if self.infos[i].is_some() {
                count = count + 1;
            }
            i = i + 1;
        }
        proof {
            assert(self.infos@.take(n as int) =~= self.infos@);
        }
        count
    }
}

/// Whether the slot holds a live entry with exactly this name.
pub open spec fn spec_name_matches(o: Option<FileInfo>, name: Seq<char>) -> bool {
    o is Some && o->Some_0.name@ == name
}

/// Whether the slot holds a live entry with exactly this name.
fn name_matches(o: &Option<FileInfo>, name: &String) -> (r: bool)
    ensures
        r == spec_name_matches(*o, name@),
{
    match o {
        Some(f) => f.name.eq(name),
        None => false,
    }
}

/// Relies on rayon's `par_iter().enumerate().find_first` over a slice: it
/// returns the sequentially first element that satisfies the predicate,
/// scheduling chunks of at least `min_len` slots per task.
#[verifier::external_body]
fn par_find_first_by_name(infos: &Vec<Option<FileInfo>>, name: &String, min_len: usize) -> (r:
    Option<usize>)
    ensures
        r is Some ==> {
            &&& (r->Some_0 as int) < infos@.len()
            &&& spec_name_matches(infos@[r->Some_0 as int], name@)
            &&& forall|j: int| 0 <= j < r->Some_0 ==> !spec_name_matches(infos@[j], name@)
        },
        r is None ==> forall|j: int|
            0 <= j < infos@.len() ==> !spec_name_matches(infos@[j], name@),
{
    infos.par_iter().enumerate().with_min_len(min_len).find_first(
        |entry: &(usize, &Option<FileInfo>)| name_matches(entry.1, name),
    ).map(|entry| entry.0)
}

/// Relies on num_cpus::get_physical, which always returns at least 1.
#[verifier::external_body]
fn physical_cpu_count() -> (r: usize)
    ensures
        r >= 1,
{
    num_cpus::get_physical()
}

/// The number of index-construction workers on this machine: the physical
/// CPUs less one kept free, and never less than one.
pub fn worker_count() -> (r: usize)
    ensures
        r >= 1,
{
    let cpus = physical_cpu_count();
    if cpus > 1 {
        cpus - 1
    } else {
        1
    }
}

/// The divisor of the table length that sets the parallel scan's chunk size.
pub const PAR_ITER_CHUNK_COUNT: usize = 64;

impl NtfsVolumeIndex {
    /// The live entry with this exact name at the lowest MFT index; `None`
    /// where no live entry has the name. The scan runs in parallel with ties
    /// broken by record order.
    pub fn find_by_name(&self, name: &str) -> (r: Option<&FileInfo>)
        ensures
            r is Some <==> exists|j: int| spec_name_matches(#[trigger] self.infos@[j], name@) && 0
                <= j < self.infos@.len(),
            r is Some ==> exists|j: int|
                {
                    &&& 0 <= j < self.infos@.len()
                    &&& spec_name_matches(#[trigger] self.infos@[j], name@)
                    &&& *r->Some_0 == self.infos@[j]->Some_0
                    &&& forall|k: int| 0 <= k < j ==> !spec_name_matches(self.infos@[k], name@)
                },
    {
        let needle = String::from_str(name);
        let min_len = if self.infos.len() >= PAR_ITER_CHUNK_COUNT {
            self.infos.len() / PAR_ITER_CHUNK_COUNT
        } else {
            1
        };
        match par_find_first_by_name(&self.infos, &needle, min_len) {
            None => None,
            Some(i) => match &self.infos[i] {
                Some(f) => Some(f),
                None => None,
            },
        }
    }
}

/// The ancestor chain from `f` towards the root: `f` first, then each
/// parent, ending at the entry whose parent is the root index, at a broken
/// parent link, or when the fuel runs out (which bounds walks over cyclic
/// parent links).
pub open spec fn spec_chain(infos: Seq<Option<FileInfo>>, f: FileInfo, fuel: nat) -> Seq<FileInfo>
    decreases fuel,
{
    seq![f] + (if f.parent == ROOT_INDEX {
        Seq::empty()
    } else if fuel == 0 {
        Seq::empty()
    } else if spec_live(infos, f.parent as int) {
        spec_chain(infos, infos[f.parent as int]->Some_0, (fuel - 1) as nat)
    } else {
        Seq::empty()
    })
}

/// The path characters an ancestor chain yields: for each entry, deepest
/// last, a backslash and its name, root first in the output.
pub open spec fn spec_path_tail(chain: Seq<FileInfo>) -> Seq<char>
    decreases chain.len(),
{
    if chain.len() == 0 {
        Seq::empty()
    } else {
        spec_path_tail(chain.drop_first()) + seq!['\\'] + chain.first().name@
    }
}

impl NtfsVolumeIndex {
    /// The entry and its ancestors, nearest first, ending at the root, at a
    /// broken parent link, or after one step per table slot on degenerate
    /// (cyclic) parent data.
    pub fn iter_with_parents(&self, file_info: &FileInfo) -> (r: Vec<FileInfo>)
        ensures
            r@ == spec_chain(self.infos@, *file_info, self.infos@.len()),
    {
        let ghost full = spec_chain(self.infos@, *file_info, self.infos@.len());
        let mut out: Vec<FileInfo> = Vec::new();
        let mut cur: FileInfo = file_info.clone();
        let mut fuel: usize = self.infos.len();
        loop
            invariant_except_break
                full == out@ + spec_chain(self.infos@, cur, fuel as nat),
            invariant
                full == spec_chain(self.infos@, *file_info, self.infos@.len()),
            ensures
                out@ == full,
            decreases fuel,
        {
            let ghost here = spec_chain(self.infos@, cur, fuel as nat);
            proof {
                assert(here.first() == cur);
                assert(here.drop_first() =~= here.subrange(1, here.len() as int));
            }
            out.push(cur.clone());
            if cur.parent == ROOT_INDEX {
                proof {
                    assert(here =~= seq![cur]);
                    assert(out@ =~= full);
                }
                break ;
            }
            if fuel == 0 {
                proof {
                    assert(here =~= seq![cur]);
                    assert(out@ =~= full);
                }
                break ;
            }
            let next = match self.find_by_index(cur.parent) {
                None => {
                    proof {
                        assert(here =~= seq![cur]);
                        assert(out@ =~= full);
                    }
                    break ;
                },
                Some(p) => p.clone(),
            };
            proof {
                assert(here == seq![cur] + spec_chain(self.infos@, next, (fuel - 1) as nat));
                assert(out@ + spec_chain(self.infos@, next, (fuel - 1) as nat) =~= (out@.drop_last()
                    + here));
            }
            cur = next;
            fuel = fuel - 1;
        }
        out
    }

    /// The full path of an entry: the volume's upper-case drive letter, a
    /// colon, then each ancestor's name from the root down, each preceded by
    /// a backslash.
    pub fn compute_full_path(&self, file_info: &FileInfo) -> (r: String)
        ensures
            r@ == seq![spec_upper(self.volume.id), ':'] + spec_path_tail(
                spec_chain(self.infos@, *file_info, self.infos@.len()),
            ),
    {
        let chain = self.iter_with_parents(file_info);
        let mut out = String::new();
        crate::text::push_char(&mut out, ascii_upper(self.volume.id));
        crate::text::push_char(&mut out, ':');
        let ghost prefix = seq![spec_upper(self.volume.id), ':'];
        proof {
            assert(out@ =~= prefix);
            assert(chain@.subrange(chain@.len() as int, chain@.len() as int) =~= Seq::<
                FileInfo,
            >::empty());
        }
        let mut idx: usize = chain.len();
        while idx > 0
            invariant
                idx <= chain@.len(),
                chain@ == spec_chain(self.infos@, *file_info, self.infos@.len()),
                prefix == seq![spec_upper(self.volume.id), ':'],
                out@ == prefix + spec_path_tail(chain@.subrange(idx as int, chain@.len() as int)),
            decreases idx,
        {
            idx = idx - 1;
            crate::text::push_char(&mut out, '\\');
            out.append(chain[idx].name.as_str());
            proof {
                let sub = chain@.subrange(idx as int, chain@.len() as int);
                assert(sub.first() == chain@[idx as int]);
                assert(sub.drop_first() =~= chain@.subrange(idx + 1, chain@.len() as int));
                assert(out@ =~= prefix + spec_path_tail(sub));
            }
        }
        proof {
            assert(chain@.subrange(0, chain@.len() as int) =~= chain@);
        }
        out
    }
}

/// What one record-sized chunk decodes to: nothing for a chunk whose magic
/// is not `FILE` or that is not in use; otherwise, after fixup, the packed
/// size (zero for a directory, else the larger of the `$DATA` size and the
/// name attribute's real size), the directory flag, the parent MFT index,
/// and the name. A record whose name cannot be extracted, or whose size
/// would not leave the directory bit free, decodes to nothing.
pub open spec fn spec_decode_record(chunk: Seq<u8>, ss: int) -> Option<(u64, bool, u64, Seq<char>)> {
    match spec_parse_record_header(chunk) {
        None => None,
        Some(h0) => {
            if h0.magic != FILE_RECORD_MAGIC || h0.flags & 0x1 == 0 {
                None
            } else {
                let fixed = spec_fixup(chunk, ss);
                match spec_parse_record_header(fixed) {
                    None => None,
                    Some(h) => match spec_destructure_with(fixed, h) {
                        None => None,
                        Some(t) => {
                            let is_directory = h.flags & 0x2 != 0;
                            let dsize = spec_data_size_with(fixed, h);
                            let size = if is_directory {
                                0u64
                            } else if dsize >= t.0 {
                                dsize
                            } else {
                                t.0
                            };
                            if size > SIZE_MASK {
                                None
                            } else {
                                Some((size, is_directory, t.1, t.2))
                            }
                        },
                    },
                }
            }
        },
    }
}

/// Whether a table slot holds what a chunk decodes to.
pub open spec fn spec_info_matches(o: Option<FileInfo>, s: Option<(u64, bool, u64, Seq<char>)>) -> bool {
    match (o, s) {
        (None, None) => true,
        (Some(f), Some(t)) => {
            &&& f.spec_size() == t.0
            &&& f.spec_is_directory() == t.1
            &&& f.parent == t.2
            &&& f.name@ == t.3
        },
        _ => false,
    }
}

/// Decodes one record-sized chunk in place: checks the magic and the in-use
/// flag, applies the fixup, and extracts the entry's name, parent and size.
fn decode_one_record(chunk: &mut Vec<u8>, sector_size: usize) -> (r: Option<FileInfo>)
    ensures
        spec_info_matches(r, spec_decode_record(old(chunk)@, sector_size as int)),
{
    let h0 = match parse_record_header(chunk.as_slice()) {
        None => {
            return None;
        },
        Some(h) => h,
    };
    if h0.magic != FILE_RECORD_MAGIC || h0.flags & 0x1 == 0 {
        return None;
    }
    FileRecord::fixup(chunk, sector_size);
    proof {
        lemma_spec_fixup_len(old(chunk)@, sector_size as int);
    }
    let rec = match FileRecord::new(chunk.as_slice()) {
        None => {
            return None;
        },
        Some(r) => r,
    };
    let (real_size, parent, name) = match rec.destructure_file_name_attribute() {
        None => {
            return None;
        },
        Some(t) => t,
    };
    let is_directory = rec.is_directory();
    let dsize = rec.get_data_attribute_size();
    let size = if is_directory {
        0
    } else if dsize >= real_size {
        dsize
    } else {
        real_size
    };
    if size > SIZE_MASK {
        return None;
    }
    Some(FileInfo::new(size, is_directory, parent, name))
}

/// Decodes an MFT buffer record by record: slot `i` of the result is what
/// the `i`-th record-sized chunk decodes to, and a trailing partial chunk is
/// ignored.
pub fn decode_mft_buffer(buffer: &[u8], record_size: usize, sector_size: usize) -> (r: Vec<
    Option<FileInfo>,
>)
    requires
        record_size >= 1,
    ensures
        r@.len() == buffer@.len() as int / record_size as int,
        forall|i: int|
            0 <= i < r@.len() ==> spec_info_matches(
                #[trigger] r@[i],
                spec_decode_record(
                    buffer@.subrange(i * record_size as int, (i + 1) * record_size as int),
                    sector_size as int,
                ),
            ),
{
    let total = buffer.len();
    let n = total / record_size;
    let mut out: Vec<Option<FileInfo>> = Vec::new();
    let mut i: usize = 0;
    while i < n
        invariant
            record_size >= 1,
            total == buffer@.len(),
            n == total as int / record_size as int,
            i <= n,
            out@.len() == i,
            forall|j: int|
                0 <= j < i ==> spec_info_matches(
                    #[trigger] out@[j],
                    spec_decode_record(
                        buffer@.subrange(j * record_size as int, (j + 1) * record_size as int),
                        sector_size as int,
                    ),
                ),
        decreases n - i,
    {
        proof {
            assert(i * record_size >= 0 && i * record_size + record_size <= total && (i + 1)
                * record_size == i * record_size + record_size) by (nonlinear_arith)
                requires
                    0 <= i,
                    i + 1 <= n,
                    n == total as int / record_size as int,
                    record_size >= 1,
                    total >= 0,
            ;
        }
        let start = i * record_size;
        let mut chunk: Vec<u8> = slice_to_vec(slice_subrange(buffer, start, start + record_size));
        let info = decode_one_record(&mut chunk, sector_size);
        out.push(info);
        i = i + 1;
    }
    out
}

/// The byte positions a run covers, in order.
pub open spec fn spec_run_positions(r: DataRun) -> Seq<int> {
    Seq::new(
        (if r.end >= r.start {
            (r.end - r.start) as nat
        } else {
            0nat
        }),
        |i: int| r.start + i,
    )
}

/// The byte positions a run list covers, in list order.
pub open spec fn spec_runs_positions(runs: Seq<DataRun>) -> Seq<int>
    decreases runs.len(),
{
    if runs.len() == 0 {
        Seq::empty()
    } else {
        spec_run_positions(runs.first()) + spec_runs_positions(runs.drop_first())
    }
}

/// The byte positions of a partition's groups, in group order.
pub open spec fn spec_groups_positions(groups: Seq<Vec<DataRun>>) -> Seq<int>
    decreases groups.len(),
{
    if groups.len() == 0 {
        Seq::empty()
    } else {
        spec_runs_positions(groups.first()@) + spec_groups_positions(groups.drop_first())
    }
}

proof fn lemma_runs_positions_push(runs: Seq<DataRun>, r: DataRun)
    ensures
        spec_runs_positions(runs.push(r)) == spec_runs_positions(runs) + spec_run_positions(r),
    decreases runs.len(),
{
    if runs.len() == 0 {
        assert(runs.push(r).drop_first() =~= runs);
        assert(runs.push(r).first() == r);
        assert(spec_runs_positions(runs.push(r)) == spec_run_positions(r)
            + spec_runs_positions(runs));
        assert(spec_runs_positions(runs) =~= Seq::<int>::empty());
        assert(spec_run_positions(r) + spec_runs_positions(runs) =~= spec_runs_positions(runs)
            + spec_run_positions(r));
    } else {
        assert(runs.push(r).first() == runs.first());
        assert(runs.push(r).drop_first() =~= runs.drop_first().push(r));
        lemma_runs_positions_push(runs.drop_first(), r);
        let a = spec_run_positions(runs.first());
        let b = spec_runs_positions(runs.drop_first());
        let c = spec_run_positions(r);
        assert(a + (b + c) =~= (a + b) + c);
        assert(spec_runs_positions(runs.push(r)) == a + (b + c));
    }
}

proof fn lemma_groups_positions_push(groups: Seq<Vec<DataRun>>, g: Vec<DataRun>)
    ensures
        spec_groups_positions(groups.push(g)) == spec_groups_positions(groups)
            + spec_runs_positions(g@),
    decreases groups.len(),
{
    if groups.len() == 0 {
        assert(groups.push(g).drop_first() =~= groups);
        assert(groups.push(g).first() == g);
        assert(spec_groups_positions(groups.push(g)) == spec_runs_positions(g@)
            + spec_groups_positions(groups));
        assert(spec_groups_positions(groups) =~= Seq::<int>::empty());
        assert(spec_runs_positions(g@) + spec_groups_positions(groups) =~= spec_groups_positions(
            groups,
        ) + spec_runs_positions(g@));
    } else {
        assert(groups.push(g).first() == groups.first());
        assert(groups.push(g).drop_first() =~= groups.drop_first().push(g));
        lemma_groups_positions_push(groups.drop_first(), g);
        let a = spec_runs_positions(groups.first()@);
        let b = spec_groups_positions(groups.drop_first());
        let c = spec_runs_positions(g@);
        assert(a + (b + c) =~= (a + b) + c);
        assert(spec_groups_positions(groups.push(g)) == a + (b + c));
    }
}

proof fn lemma_aligned_sub(x: int, y: int, m: int)
    requires
        m >= 1,
        x % m == 0,
        y % m == 0,
    ensures
        (x - y) % m == 0,
{
    vstd::arithmetic::div_mod::lemma_sub_mod_noop(x, y, m);
    vstd::arithmetic::div_mod::lemma_small_mod(0nat, m as nat);
}

proof fn lemma_aligned_add(x: int, y: int, m: int)
    requires
        m >= 1,
        x % m == 0,
        y % m == 0,
    ensures
        (x + y) % m == 0,
{
    vstd::arithmetic::div_mod::lemma_add_mod_noop(x, y, m);
    vstd::arithmetic::div_mod::lemma_small_mod(0nat, m as nat);
}

proof fn lemma_round_down(x: int, m: int)
    requires
        m >= 1,
        x >= 0,
    ensures
        0 <= x % m <= x,
        (x - x % m) % m == 0,
{
    vstd::arithmetic::div_mod::lemma_mod_bound(x, m);
    if x < m {
        vstd::arithmetic::div_mod::lemma_small_mod(x as nat, m as nat);
    }
    vstd::arithmetic::div_mod::lemma_fundamental_div_mod(x, m);
    vstd::arithmetic::div_mod::lemma_mod_multiples_basic(x / m, m);
    assert(m * (x / m) == (x / m) * m) by (nonlinear_arith);
}

proof fn lemma_run_split(r: DataRun, mid: int)
    requires
        r.start <= mid <= r.end,
    ensures
        spec_run_positions(r) == spec_run_positions(DataRun { start: r.start, end: mid as usize })
            + spec_run_positions(DataRun { start: mid as usize, end: r.end }),
{
    assert(spec_run_positions(r) =~= spec_run_positions(DataRun { start: r.start, end: mid as usize })
        + spec_run_positions(DataRun { start: mid as usize, end: r.end }));
}

/// Splits the run list over `cpus` workers: a per-worker byte budget of
/// `total_size / cpus`, rounded down to a cluster multiple, is filled from
/// the runs in order, splitting a run on a cluster boundary where it would
/// overshoot; everything left goes to the last worker. The groups cover
/// exactly the bytes of the input, in the same order, so record numbers
/// follow from cumulative byte offsets. With one CPU the single worker reads
/// all runs, untouched.
pub fn distribute_runs_to_cpus(
    total_size: usize,
    runs: Vec<DataRun>,
    cpus: usize,
    bytes_per_cluster: usize,
) -> (r: Vec<Vec<DataRun>>)
    requires
        cpus >= 1,
        bytes_per_cluster >= 1,
        forall|i: int|
            0 <= i < runs@.len() ==> (#[trigger] runs@[i]).start <= runs@[i].end && (runs@[i].end
                - runs@[i].start) % (bytes_per_cluster as int) == 0,
    ensures
        r@.len() == cpus,
        spec_groups_positions(r@) == spec_runs_positions(runs@),
        cpus == 1 ==> r@.len() == 1 && r@[0]@ == runs@,
{
    let ghost all = spec_runs_positions(runs@);
    let mut rem = runs;
    let run_size_raw = total_size / cpus;
    proof {
        lemma_round_down(run_size_raw as int, bytes_per_cluster as int);
    }
    let run_size = run_size_raw - run_size_raw % bytes_per_cluster;
    let mut run_groups: Vec<Vec<DataRun>> = Vec::new();
    let mut c: usize = 0;
    proof {
        assert(spec_groups_positions(run_groups@) + spec_runs_positions(rem@) =~= all);
    }
    while c < cpus - 1
        invariant
            cpus >= 1,
            bytes_per_cluster >= 1,
            (run_size as int) % (bytes_per_cluster as int) == 0,
            run_size <= usize::MAX,
            c <= cpus - 1,
            c == 0 ==> rem@ == runs@,
            run_groups@.len() == c,
            spec_groups_positions(run_groups@) + spec_runs_positions(rem@) == all,
            forall|i: int|
                0 <= i < rem@.len() ==> (#[trigger] rem@[i]).start <= rem@[i].end && (rem@[i].end
                    - rem@[i].start) % (bytes_per_cluster as int) == 0,
        decreases cpus - 1 - c,
    {
        let mut run_group: Vec<DataRun> = Vec::new();
        let mut run_group_size: usize = 0;
        while run_group_size < run_size && rem.len() > 0
            invariant
                bytes_per_cluster >= 1,
                (run_size as int) % (bytes_per_cluster as int) == 0,
                run_size <= usize::MAX,
                run_group_size <= run_size,
                (run_group_size as int) % (bytes_per_cluster as int) == 0,
                spec_groups_positions(run_groups@) + spec_runs_positions(run_group@)
                    + spec_runs_positions(rem@) == all,
                forall|i: int|
                    0 <= i < rem@.len() ==> (#[trigger] rem@[i]).start <= rem@[i].end
                        && (rem@[i].end - rem@[i].start) % (bytes_per_cluster as int) == 0,
            decreases rem@.len() + (run_size - run_group_size),
        {
            let ghost rem0 = rem@;
            let run = rem.remove(0);
            proof {
                assert(rem0.first() == run);
                assert(rem0.drop_first() =~= rem@);
                assert(spec_runs_positions(rem0) == spec_run_positions(run)
                    + spec_runs_positions(rem@));
            }
            let run_len = run.end - run.start;
            if run_len > run_size - run_group_size {
                let split = run_size - run_group_size;
                let head = DataRun { start: run.start, end: run.start + split };
                let tail = DataRun { start: run.start + split, end: run.end };
                proof {
                    lemma_run_split(run, run.start + split);
                    lemma_runs_positions_push(run_group@, head);
                    let m = bytes_per_cluster as int;
                    lemma_aligned_sub(run_size as int, run_group_size as int, m);
                    assert((split as int) % m == 0);
                    lemma_aligned_sub(run.end - run.start, split as int, m);
                    assert((tail.end - tail.start) % m == 0);
                }
                let ghost rem1 = rem@;
                rem.insert(0, tail);
                run_group.push(head);
                proof {
                    assert(rem@.first() == tail);
                    assert(rem@.drop_first() =~= rem1);
                    assert(spec_runs_positions(rem@) == spec_run_positions(tail)
                        + spec_runs_positions(rem1));
                }
                run_group_size = run_group_size + split;
            } else {
                proof {
                    lemma_runs_positions_push(run_group@, run);
                    lemma_aligned_add(
                        run_group_size as int,
                        run.end - run.start,
                        bytes_per_cluster as int,
                    );
                }
                run_group.push(run);
                run_group_size = run_group_size + run_len;
            }
        }
        proof {
            lemma_groups_positions_push(run_groups@, run_group);
        }
        run_groups.push(run_group);
        c = c + 1;
    }
    proof {
        lemma_groups_positions_push(run_groups@, rem);
        assert(spec_runs_positions(Seq::<DataRun>::empty()) =~= Seq::<int>::empty());
    }
    run_groups.push(rem);
    proof {
        assert(spec_groups_positions(run_groups@) =~= all);
    }
    run_groups
}

/// The packed size word a journal-created entry gets: size 0 (the journal
/// does not report sizes), with the directory bit as stated.
pub open spec fn spec_created_word(is_directory: bool) -> u64 {
    if is_directory {
        0x8000_0000_0000_0000u64
    } else {
        0u64
    }
}

/// The table grown with empty slots to hold index `n - 1`.
pub open spec fn spec_grow(infos: Seq<Option<FileInfo>>, n: int) -> Seq<Option<FileInfo>> {
    if n > infos.len() {
        infos + Seq::new((n - infos.len()) as nat, |i: int| None)
    } else {
        infos
    }
}

/// What one journal event does to the table.
///
/// A create on an occupied slot, or with an absent parent, is skipped; an
/// applied create grows the table as needed and writes the entry with size
/// zero. A rename with an absent new parent is skipped; on a live slot it
/// replaces name and parent, keeping the packed size word. A delete empties
/// the slot; one aimed outside the table is a no-op.
pub open spec fn spec_apply_event(infos: Seq<Option<FileInfo>>, e: JournalEntry) -> Seq<
    Option<FileInfo>,
> {
    match e {
        JournalEntry::FileCreate { mft_index, parent_mft_index, name, is_directory } => {
            if spec_live(infos, mft_index as int) {
                infos
            } else if !spec_live(infos, parent_mft_index as int) {
                infos
            } else {
                spec_grow(infos, mft_index + 1).update(
                    mft_index as int,
                    Some(
                        FileInfo {
                            name: name,
                            parent: parent_mft_index,
                            size_and_directory: spec_created_word(is_directory),
                        },
                    ),
                )
            }
        },
        JournalEntry::Rename { mft_index, new_name, new_parent_mft_index } => {
            if !spec_live(infos, new_parent_mft_index as int) {
                infos
            } else if spec_live(infos, mft_index as int) {
                infos.update(
                    mft_index as int,
                    Some(
                        FileInfo {
                            name: new_name,
                            parent: new_parent_mft_index,
                            size_and_directory: infos[mft_index as int]->Some_0.size_and_directory,
                        },
                    ),
                )
            } else {
                infos
            }
        },
        JournalEntry::FileDelete(mft_index) => {
            if (mft_index as int) < infos.len() {
                infos.update(mft_index as int, None)
            } else {
                infos
            }
        },
    }
}

/// What a batch of journal events does to the table: each event in journal
/// order.
pub open spec fn spec_apply(infos: Seq<Option<FileInfo>>, entries: Seq<JournalEntry>) -> Seq<
    Option<FileInfo>,
>
    decreases entries.len(),
{
    if entries.len() == 0 {
        infos
    } else {
        spec_apply(spec_apply_event(infos, entries.first()), entries.drop_first())
    }
}

impl NtfsVolumeIndex {
    /// Applies a batch of journal events to the table, in order: creates on
    /// occupied slots and creates or renames whose parent is absent are
    /// skipped, deletes empty their slot, and renames replace name and
    /// parent in place.
    pub fn process_journal_entries(&mut self, entries: &[JournalEntry])
        requires
            forall|i: int|
                0 <= i < entries@.len() ==> ((#[trigger] entries@[i]) matches
                    JournalEntry::FileCreate { mft_index, .. } ==> mft_index < usize::MAX),
        ensures
            final(self).infos@ == spec_apply(old(self).infos@, entries@),
            final(self).volume == old(self).volume,
    {
        let ghost full = spec_apply(old(self).infos@, entries@);
        let n = entries.len();
        let mut i: usize = 0;
        proof {
            assert(entries@.subrange(0, n as int) =~= entries@);
        }
        while i < n
            invariant
                self.volume == old(self).volume,
                n == entries@.len(),
                i <= n,
                full == spec_apply(old(self).infos@, entries@),
                full == spec_apply(self.infos@, entries@.subrange(i as int, n as int)),
                forall|k: int|
                    0 <= k < entries@.len() ==> ((#[trigger] entries@[k]) matches
                        JournalEntry::FileCreate { mft_index, .. } ==> mft_index < usize::MAX),
            decreases n - i,
        {
            let ghost suffix = entries@.subrange(i as int, n as int);
            proof {
                assert(suffix.first() == entries@[i as int]);
                assert(suffix.drop_first() =~= entries@.subrange(i + 1, n as int));
            }
            match &entries[i] {
                JournalEntry::FileCreate { mft_index, parent_mft_index, name, is_directory } => {
                    if self.find_by_index(*mft_index).is_some() {
                        // An entry already lives there: skip, as the journal
                        // may replay a create the scan already saw.
                    } else if self.find_by_index(*parent_mft_index).is_none() {
                        // The parent is not in the table: skip.
                    } else {
                        let m = *mft_index as usize;
                        let ghost grown = spec_grow(self.infos@, *mft_index + 1);
                        let ghost before = self.infos@;
                        proof {
                            assert(before + Seq::new(0nat, |q: int| None::<FileInfo>) =~= before);
                        }
                        while self.infos.len() <= m
                            invariant
                                m < usize::MAX,
                                self.volume == old(self).volume,
                                before.len() <= self.infos@.len() <= m + 1 || self.infos@.len()
                                    == before.len(),
                                self.infos@.len() >= before.len(),
                                self.infos@ == before + Seq::new(
                                    (self.infos@.len() - before.len()) as nat,
                                    |q: int| None::<FileInfo>,
                                ),
                            decreases m + 1 - self.infos@.len(),
                        {
                            let ghost cur = self.infos@;
                            self.infos.push(None);
                            proof {
                                assert(self.infos@ =~= before + Seq::new(
                                    (self.infos@.len() - before.len()) as nat,
                                    |q: int| None::<FileInfo>,
                                ));
                            }
                        }
                        proof {
                            if m >= before.len() {
                                assert(self.infos@ =~= grown);
                            } else {
                                assert(Seq::new(0nat, |q: int| None::<FileInfo>) =~= Seq::<
                                    Option<FileInfo>,
                                >::empty());
                                assert(self.infos@ =~= grown);
                            }
                        }
                        let info = FileInfo::new(0, *is_directory, *parent_mft_index, name.clone());
                        proof {
                            assert(0u64 | 0x8000_0000_0000_0000u64 == 0x8000_0000_0000_0000u64)
                                by (bit_vector);
                            assert(info.size_and_directory == spec_created_word(*is_directory));
                        }
                        self.infos[m] = Some(info);
                        proof {
                            assert(self.infos@ =~= spec_apply_event(before, entries@[i as int]));
                        }
                    }
                },
                JournalEntry::Rename { mft_index, new_name, new_parent_mft_index } => {
                    if self.find_by_index(*new_parent_mft_index).is_none() {
                        // The new parent is not in the table: skip.
                    } else if *mft_index < self.infos.len() as u64 {
                        let m = *mft_index as usize;
                        let word = match &self.infos[m] {
                            Some(f) => f.size_and_directory,
                            None => 0,
                        };
                        let live = self.infos[m].is_some();
                        if live {
                            self.infos[m] = Some(
                                FileInfo {
                                    name: new_name.clone(),
                                    parent: *new_parent_mft_index,
                                    size_and_directory: word,
                                },
                            );
                        }
                    }
                },
                JournalEntry::FileDelete(mft_index) => {
                    if *mft_index < self.infos.len() as u64 {
                        self.infos[*mft_index as usize] = None;
                    }
                },
            }
            i = i + 1;
        }
        proof {
            assert(entries@.subrange(n as int, n as int) =~= Seq::<JournalEntry>::empty());
        }
    }
}

/// Applying an empty journal batch leaves every slot of the table
/// bit-identical.
pub proof fn lemma_apply_empty_batch(infos: Seq<Option<FileInfo>>, entries: Seq<JournalEntry>)
    requires
        entries.len() == 0,
    ensures
        spec_apply(infos, entries) == infos,
{
}

/// Replaying one already-applied journal event is a no-op: a create lands
/// on the now-occupied slot and is skipped, a delete empties an already
/// empty slot, and a rename writes the same name and parent again.
pub proof fn lemma_apply_event_idempotent(infos: Seq<Option<FileInfo>>, e: JournalEntry)
    ensures
        spec_apply_event(spec_apply_event(infos, e), e) == spec_apply_event(infos, e),
{
    let once = spec_apply_event(infos, e);
    match e {
        JournalEntry::FileCreate { mft_index, parent_mft_index, name, is_directory } => {
            let m = mft_index as int;
            if spec_live(infos, m) || !spec_live(infos, parent_mft_index as int) {
            } else {
                let grown = spec_grow(infos, mft_index + 1);
                assert(m < grown.len());
                assert(once[m] is Some);
                assert(spec_live(once, m));
            }
        },
        JournalEntry::Rename { mft_index, new_name, new_parent_mft_index } => {
            let m = mft_index as int;
            let p = new_parent_mft_index as int;
            if !spec_live(infos, p) {
            } else if spec_live(infos, m) {
                assert(spec_live(once, p));
                assert(spec_live(once, m));
                assert(once[m]->Some_0.size_and_directory
                    == infos[m]->Some_0.size_and_directory);
                assert(spec_apply_event(once, e) =~= once);
            } else {
            }
        },
        JournalEntry::FileDelete(mft_index) => {
            let m = mft_index as int;
            if m < infos.len() {
                assert(spec_apply_event(once, e) =~= once);
            }
        },
    }
}

/// Parent links are well-formed: every live entry other than the root
/// points at a live entry whose directory bit is set.
pub open spec fn spec_parents_wf(infos: Seq<Option<FileInfo>>) -> bool {
    forall|i: int|
        spec_live(infos, i) && i != 5 ==> {
            let p = (#[trigger] infos[i])->Some_0.parent;
            spec_live(infos, p as int) && infos[p as int]->Some_0.spec_is_directory()
        }
}

/// Whether one journal event keeps the parent links well-formed: a create
/// that will apply must name a directory parent, a rename that will apply
/// must name a directory new parent, and a delete must not remove a slot
/// that some other live entry has as its parent.
pub open spec fn spec_event_parent_safe(infos: Seq<Option<FileInfo>>, e: JournalEntry) -> bool {
    match e {
        JournalEntry::FileCreate { mft_index, parent_mft_index, .. } => (!spec_live(
            infos,
            mft_index as int,
        ) && spec_live(infos, parent_mft_index as int)) ==> infos[
            parent_mft_index as int
        ]->Some_0.spec_is_directory(),
        JournalEntry::Rename { mft_index, new_parent_mft_index, .. } => (spec_live(
            infos,
            new_parent_mft_index as int,
        ) && spec_live(infos, mft_index as int)) ==> infos[
            new_parent_mft_index as int
        ]->Some_0.spec_is_directory(),
        JournalEntry::FileDelete(m) => forall|j: int|
            spec_live(infos, j) && j != 5 && j != m ==> (#[trigger] infos[j])->Some_0.parent != m,
    }
}

/// Well-formed parent links survive each journal event that is parent-safe:
/// after the event, every live entry other than the root still points at a
/// live directory.
pub proof fn lemma_parents_wf_preserved_by_event(infos: Seq<Option<FileInfo>>, e: JournalEntry)
    requires
        spec_parents_wf(infos),
        spec_event_parent_safe(infos, e),
    ensures
        spec_parents_wf(spec_apply_event(infos, e)),
{
    let new = spec_apply_event(infos, e);
    match e {
        JournalEntry::FileCreate { mft_index, parent_mft_index, name, is_directory } => {
            let m = mft_index as int;
            let p = parent_mft_index as int;
            if spec_live(infos, m) || !spec_live(infos, p) {
            } else {
                let grown = spec_grow(infos, mft_index + 1);
                assert(m != p);
                assert forall|i: int| spec_live(new, i) && i != 5 implies {
                    let q = (#[trigger] new[i])->Some_0.parent;
                    spec_live(new, q as int) && new[q as int]->Some_0.spec_is_directory()
                } by {
                    if i == m {
                        assert(new[m]->Some_0.parent == parent_mft_index);
                        assert(new[p] == infos[p]);
                    } else {
                        if i < infos.len() {
                            assert(new[i] == infos[i]);
                            let q = infos[i]->Some_0.parent as int;
                            assert(spec_live(infos, q) && infos[q]->Some_0.spec_is_directory());
                            assert(q != m);
                            assert(new[q] == infos[q]);
                        } else {
                            assert(new[i] is None);
                        }
                    }
                }
            }
        },
        JournalEntry::Rename { mft_index, new_name, new_parent_mft_index } => {
            let m = mft_index as int;
            let p = new_parent_mft_index as int;
            if !spec_live(infos, p) || !spec_live(infos, m) {
            } else {
                assert forall|i: int| spec_live(new, i) && i != 5 implies {
                    let q = (#[trigger] new[i])->Some_0.parent;
                    spec_live(new, q as int) && new[q as int]->Some_0.spec_is_directory()
                } by {
                    if i == m {
                        assert(new[m]->Some_0.parent == new_parent_mft_index);
                        if p == m {
                            assert(new[m]->Some_0.size_and_directory
                                == infos[m]->Some_0.size_and_directory);
                        } else {
                            assert(new[p] == infos[p]);
                        }
                    } else {
                        assert(new[i] == infos[i]);
                        let q = infos[i]->Some_0.parent as int;
                        assert(spec_live(infos, q) && infos[q]->Some_0.spec_is_directory());
                        if q == m {
                            assert(new[q]->Some_0.size_and_directory
                                == infos[q]->Some_0.size_and_directory);
                        } else {
                            assert(new[q] == infos[q]);
                        }
                    }
                }
            }
        },
        JournalEntry::FileDelete(mft_index) => {
            let m = mft_index as int;
            if m < infos.len() {
                assert forall|i: int| spec_live(new, i) && i != 5 implies {
                    let q = (#[trigger] new[i])->Some_0.parent;
                    spec_live(new, q as int) && new[q as int]->Some_0.spec_is_directory()
                } by {
                    assert(i != m);
                    assert(new[i] == infos[i]);
                    let q = infos[i]->Some_0.parent as int;
                    assert(infos[i]->Some_0.parent != mft_index);
                    assert(spec_live(infos, q) && infos[q]->Some_0.spec_is_directory());
                    assert(new[q] == infos[q]);
                }
            }
        },
    }
}

/// No two adjacent backslashes anywhere in the sequence.
pub open spec fn spec_no_double_separator(s: Seq<char>) -> bool {
    forall|k: int| 0 <= k < s.len() - 1 ==> !((#[trigger] s[k]) == '\\' && s[k + 1] == '\\')
}

/// Every entry of the chain has a nonempty name free of backslashes.
pub open spec fn spec_chain_names_clean(chain: Seq<FileInfo>) -> bool {
    forall|i: int|
        0 <= i < chain.len() ==> {
            let nm = (#[trigger] chain[i]).name@;
            nm.len() > 0 && forall|k: int| 0 <= k < nm.len() ==> (#[trigger] nm[k]) != '\\'
        }
}

proof fn lemma_path_tail_shape(chain: Seq<FileInfo>)
    requires
        spec_chain_names_clean(chain),
    ensures
        chain.len() == 0 ==> spec_path_tail(chain).len() == 0,
        chain.len() > 0 ==> {
            let t = spec_path_tail(chain);
            &&& t.len() > 0
            &&& t[0] == '\\'
            &&& t.last() != '\\'
            &&& spec_no_double_separator(t)
        },
    decreases chain.len(),
{
    if chain.len() > 0 {
        let rest = chain.drop_first();
        assert forall|i: int| 0 <= i < rest.len() implies {
            let nm = (#[trigger] rest[i]).name@;
            nm.len() > 0 && forall|k: int| 0 <= k < nm.len() ==> (#[trigger] nm[k]) != '\\'
        } by {
            assert(rest[i] == chain[i + 1]);
            assert(chain[i + 1].name@.len() > 0 && forall|k: int|
                0 <= k < chain[i + 1].name@.len() ==> (#[trigger] chain[i + 1].name@[k]) != '\\');
        }
        lemma_path_tail_shape(rest);
        let a = spec_path_tail(rest);
        let nm = chain.first().name@;
        let t = spec_path_tail(chain);
        assert(chain.first() == chain[0]);
        assert(nm.len() > 0 && forall|k: int| 0 <= k < nm.len() ==> (#[trigger] nm[k]) != '\\');
        assert(t == a + seq!['\\'] + nm);
        assert(t.len() == a.len() + 1 + nm.len());
        assert forall|k: int| 0 <= k < t.len() - 1 implies !((#[trigger] t[k]) == '\\' && t[k + 1]
            == '\\') by {
            if k < a.len() - 1 {
                assert(t[k] == a[k] && t[k + 1] == a[k + 1]);
            } else if a.len() > 0 && k == a.len() - 1 {
                assert(t[k] == a.last());
            } else if k == a.len() {
                assert(t[k + 1] == nm[0]);
            } else {
                assert(t[k] == nm[k - a.len() - 1]);
            }
        }
        if a.len() > 0 {
            assert(t[0] == a[0]);
        } else {
            assert(t[0] == '\\');
        }
        assert(t.last() == nm.last());
    }
}

/// Every full path starts with the upper-case drive letter, a colon and a
/// single backslash, and holds no doubled separator, provided the drive is
/// bound to an ASCII letter and every name on the ancestor chain is
/// nonempty and free of backslashes.
pub proof fn lemma_full_path_shape(infos: Seq<Option<FileInfo>>, f: FileInfo, letter: char)
    requires
        ('a' <= letter && letter <= 'z') || ('A' <= letter && letter <= 'Z'),
        spec_chain_names_clean(spec_chain(infos, f, infos.len() as nat)),
    ensures
        ({
            let path = seq![spec_upper(letter), ':'] + spec_path_tail(
                spec_chain(infos, f, infos.len() as nat),
            );
            &&& path.len() >= 3
            &&& path[0] == spec_upper(letter)
            &&& 'A' <= path[0] && path[0] <= 'Z'
            &&& path[1] == ':'
            &&& path[2] == '\\'
            &&& spec_no_double_separator(path)
        }),
{
    let chain = spec_chain(infos, f, infos.len() as nat);
    assert(chain.len() >= 1);
    lemma_path_tail_shape(chain);
    let t = spec_path_tail(chain);
    let u = spec_upper(letter);
    assert('A' <= u && u <= 'Z');
    let path = seq![u, ':'] + t;
    assert(path[0] == u && path[1] == ':' && path[2] == t[0]);
    assert forall|k: int| 0 <= k < path.len() - 1 implies !((#[trigger] path[k]) == '\\' && path[k
        + 1] == '\\') by {
        if k >= 2 {
            assert(path[k] == t[k - 2] && path[k + 1] == t[k - 1]);
        }
    }
}

/// How many of the table's slots are live.
pub open spec fn spec_live_count(infos: Seq<Option<FileInfo>>) -> nat
    decreases infos.len(),
{
    if infos.len() == 0 {
        0
    } else {
        spec_live_count(infos.drop_last()) + (if infos.last() is Some {
            1nat
        } else {
            0nat
        })
    }
}

} // verus!
