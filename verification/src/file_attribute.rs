//! MFT attribute headers and the decoding of non-resident data runs.
//!
//! An attribute starts with a 16-byte common header; a residency flag selects
//! between a resident tail (value offset/length) and a non-resident tail
//! (sizes plus the offset of the data-run stream). A data-run stream is a
//! sequence of variable-width entries: one header byte whose low nibble gives
//! the byte width of the cluster count and whose high nibble gives the byte
//! width of a signed cluster-offset delta, followed by those little-endian
//! fields; a zero header byte terminates the stream.
use vstd::prelude::*;

verus! {

use vstd::slice::slice_subrange;
use vstd::bytes::{spec_u16_from_le_bytes, spec_u32_from_le_bytes, spec_u64_from_le_bytes};
use vstd::bytes::{u16_from_le_bytes, u32_from_le_bytes, u64_from_le_bytes};

/// A half-open byte-offset range on the raw volume.
#[derive(Debug, Copy, Clone, PartialEq, Eq, Structural)]
pub struct DataRun {
    pub start: usize,
    pub end: usize,
}

/// 256 to the power `e`.
pub open spec fn pow256(e: nat) -> nat
    decreases e,
{
    if e == 0 {
        1
    } else {
        256 * pow256((e - 1) as nat)
    }
}

proof fn lemma_pow256_increases(a: nat, b: nat)
    requires
        a <= b,
    ensures
        pow256(a) <= pow256(b),
    decreases b,
{
    if a < b && b > 0 {
        lemma_pow256_increases(a, (b - 1) as nat);
        assert(pow256(b) == 256 * pow256((b - 1) as nat));
    }
}

proof fn lemma_pow256_values()
    ensures
        pow256(0) == 1,
        pow256(1) == 0x100,
        pow256(2) == 0x10000,
        pow256(3) == 0x1000000,
        pow256(4) == 0x100000000,
        pow256(5) == 0x10000000000,
        pow256(6) == 0x1000000000000,
        pow256(7) == 0x100000000000000,
        pow256(8) == 0x10000000000000000,
{
    reveal_with_fuel(pow256, 9);
}

/// The unsigned value of a little-endian byte sequence of any width.
pub open spec fn le_bytes_to_nat(s: Seq<u8>) -> nat
    decreases s.len(),
{
    if s.len() == 0 {
        0
    } else {
        (s[0] + 256 * le_bytes_to_nat(s.drop_first())) as nat
    }
}

proof fn lemma_le_bytes_bound(s: Seq<u8>)
    ensures
        le_bytes_to_nat(s) < pow256(s.len()),
    decreases s.len(),
{
    if s.len() > 0 {
        lemma_le_bytes_bound(s.drop_first());
    }
}

/// The signed value of a little-endian byte sequence: the unsigned value,
/// sign-extended from its own width (two's complement).
pub open spec fn le_bytes_to_int(s: Seq<u8>) -> int {
    let raw = le_bytes_to_nat(s);
    if raw >= pow256(s.len()) / 2 {
        raw - pow256(s.len())
    } else {
        raw as int
    }
}

/// Reads `width` little-endian bytes at `pos` as an unsigned integer.
fn read_le_nat(data: &[u8], pos: usize, width: usize) -> (r: u64)
    requires
        width <= 8,
        pos + width <= data@.len(),
    ensures
        r == le_bytes_to_nat(data@.subrange(pos as int, pos + width)),
{
    let n = data.len();
    let mut acc: u64 = 0;
    let mut j: usize = width;
    proof {
        lemma_pow256_values();
        assert(data@.subrange(pos + width, pos + width) =~= Seq::<u8>::empty());
    }
    while j > 0
        invariant
            j <= width <= 8,
            pos + width <= data@.len(),
            pos + width <= n <= usize::MAX,
            acc == le_bytes_to_nat(data@.subrange(pos + j, pos + width)),
            acc < pow256((width - j) as nat),
        decreases j,
    {
        j = j - 1;
        let b = data[pos + j];
        proof {
            lemma_pow256_values();
            lemma_pow256_increases((width - j) as nat, 8);
            let tail = data@.subrange(pos + j + 1, pos + width);
            let whole = data@.subrange(pos + j, pos + width);
            assert(whole[0] == data@[pos + j]);
            assert(whole.drop_first() =~= tail);
        }
        acc = acc * 256 + (b as u64);
    }
    proof {
        assert(data@.subrange(pos as int, pos + width) =~= data@.subrange(
            pos + 0,
            pos + width,
        ));
    }
    acc
}

/// Decodes the data-run stream of `data` from position `pos`, with `prev` the
/// absolute byte offset the next delta is accumulated against. `None` means
/// the stream is malformed: it runs past the end of `data` without a
/// terminator, a field width is out of range (a count wider than 8 bytes, or
/// an offset width of 0 or more than 8), or an offset or size falls outside
/// the addressable range.
pub open spec fn spec_decode_runs(data: Seq<u8>, pos: int, prev: int, bpc: nat) -> Option<
    Seq<DataRun>,
>
    decreases data.len() - pos,
{
    if pos < 0 || pos >= data.len() {
        None
    } else {
        let h = data[pos];
        if h == 0 {
            Some(Seq::empty())
        } else {
            let cs = (h & 0x0F) as int;
            let os = (h >> 4) as int;
            if os == 0 || os > 8 || cs > 8 || pos + 1 + cs + os > data.len() {
                None
            } else {
                let count = le_bytes_to_nat(data.subrange(pos + 1, pos + 1 + cs));
                let delta = le_bytes_to_int(data.subrange(pos + 1 + cs, pos + 1 + cs + os));
                let start = prev + delta * bpc;
                let end = start + count * bpc;
                if start < 0 || end > usize::MAX {
                    None
                } else {
                    match spec_decode_runs(data, pos + 1 + cs + os, start, bpc) {
                        None => None,
                        Some(rest) => Some(
                            seq![DataRun { start: start as usize, end: end as usize }] + rest,
                        ),
                    }
                }
            }
        }
    }
}

/// Decodes a data-run stream starting at `start_pos` into absolute byte
/// ranges, multiplying cluster counts and deltas by `bytes_per_cluster`.
/// Returns `None` exactly where the stream is malformed (no terminator,
/// an out-of-range field width, or an offset outside the addressable range).
pub fn decode_run_list(data: &[u8], start_pos: usize, bytes_per_cluster: usize) -> (r: Option<
    Vec<DataRun>,
>)
    ensures
        r is Some <==> spec_decode_runs(data@, start_pos as int, 0, bytes_per_cluster as nat)
            is Some,
        r is Some ==> r->Some_0@ == spec_decode_runs(
            data@,
            start_pos as int,
            0,
            bytes_per_cluster as nat,
        )->Some_0,
{
    let ghost full = spec_decode_runs(data@, start_pos as int, 0, bytes_per_cluster as nat);
    let mut runs: Vec<DataRun> = Vec::new();
    let mut pos: usize = start_pos;
    let mut prev: usize = 0;
    loop
        invariant
            full == spec_decode_runs(data@, start_pos as int, 0, bytes_per_cluster as nat),
            bytes_per_cluster <= usize::MAX,
            pos >= 0,
            prev <= usize::MAX,
            (match spec_decode_runs(data@, pos as int, prev as int, bytes_per_cluster as nat) {
                None => full is None,
                Some(rest) => full == Some(runs@ + rest),
            }),
        decreases data@.len() - pos,
    {
        let ghost here = spec_decode_runs(data@, pos as int, prev as int, bytes_per_cluster as nat);
        if pos >= data.len() {
            return None;
        }
        let h = data[pos];
        if h == 0 {
            proof {
                assert(runs@ + Seq::<DataRun>::empty() =~= runs@);
            }
            return Some(runs);
        }
        let cs = (h & 0x0F) as usize;
        let os = (h >> 4) as usize;
        if os == 0 || os > 8 || cs > 8 {
            return None;
        }
        if 1 + cs + os > data.len() - pos {
            return None;
        }
        let count = read_le_nat(data, pos + 1, cs);
        let raw = read_le_nat(data, pos + 1 + cs, os);
        let two: u128 = match os {
            1 => 0x100,
            2 => 0x10000,
            3 => 0x1000000,
            4 => 0x100000000,
            5 => 0x10000000000,
            6 => 0x1000000000000,
            7 => 0x100000000000000,
            _ => 0x10000000000000000,
        };
        let ghost count_s = data@.subrange(pos + 1, pos + 1 + cs);
        let ghost off_s = data@.subrange(pos + 1 + cs, pos + 1 + cs + os);
        proof {
            lemma_pow256_values();
            assert(two == pow256(os as nat));
            lemma_le_bytes_bound(count_s);
            lemma_le_bytes_bound(off_s);
            lemma_pow256_increases(cs as nat, 8);
            lemma_pow256_increases(os as nat, 8);
        }
        let ghost delta = le_bytes_to_int(off_s);
        let bpc128 = bytes_per_cluster as u128;
        let negative = (raw as u128) >= two / 2;
        // The absolute start of this run: prev plus the signed delta in bytes.
        let start: usize;
        if negative {
            proof {
                assert(raw < two);
                assert((two - (raw as u128)) * bpc128 <= 0x10000000000000000u128
                    * 0xFFFFFFFFFFFFFFFFu128) by (nonlinear_arith)
                    requires
                        two - (raw as u128) <= 0x10000000000000000u128,
                        bpc128 <= 0xFFFFFFFFFFFFFFFFu128,
                ;
            }
            let mag = (two - (raw as u128)) * bpc128;
            proof {
                assert(delta == raw - pow256(os as nat));
                assert(delta * (bytes_per_cluster as int) == -(mag as int)) by (nonlinear_arith)
                    requires
                        delta == raw - two,
                        mag == (two - (raw as u128)) * bpc128,
                        bpc128 == bytes_per_cluster,
                        raw < two,
                ;
            }
            if mag > (prev as u128) {
                return None;
            }
            start = ((prev as u128) - mag) as usize;
            proof {
                assert(start == prev + delta * bytes_per_cluster);
            }
        } else {
            proof {
                assert(delta == raw as int);
                assert((raw as u128) * bpc128 <= 0xFFFFFFFFFFFFFFFFu128 * 0xFFFFFFFFFFFFFFFFu128)
                    by (nonlinear_arith)
                    requires
                        raw <= 0xFFFFFFFFFFFFFFFFu128,
                        bpc128 <= 0xFFFFFFFFFFFFFFFFu128,
                ;
            }
            let start128 = (prev as u128) + (raw as u128) * bpc128;
            if start128 > (usize::MAX as u128) {
                return None;
            }
            start = start128 as usize;
            proof {
                assert(start == prev + delta * bytes_per_cluster);
            }
        }
        proof {
            assert((count as u128) * bpc128 <= 0xFFFFFFFFFFFFFFFFu128 * 0xFFFFFFFFFFFFFFFFu128)
                by (nonlinear_arith)
                requires
                    count <= 0xFFFFFFFFFFFFFFFFu128,
                    bpc128 <= 0xFFFFFFFFFFFFFFFFu128,
            ;
        }
        let size128 = (count as u128) * bpc128;
        let end128 = (start as u128) + size128;
        if end128 > (usize::MAX as u128) {
            return None;
        }
        let end = end128 as usize;
        let run = DataRun { start, end };
        proof {
            let next = spec_decode_runs(
                data@,
                pos + 1 + cs + os,
                start as int,
                bytes_per_cluster as nat,
            );
            assert(here == (match next {
                None => { None::<Seq<DataRun>> },
                Some(rest) => { Some(seq![run] + rest) },
            }));
            if next is Some {
                assert(runs@ + (seq![run] + next->Some_0) =~= runs@.push(run) + next->Some_0);
            }
        }
        runs.push(run);
        pos = pos + 1 + cs + os;
        prev = start;
    }
}

/// The little-endian encoding of `n` in exactly `w` bytes.
pub open spec fn le_bytes_of_nat(n: nat, w: nat) -> Seq<u8>
    decreases w,
{
    if w == 0 {
        Seq::empty()
    } else {
        seq![(n % 256) as u8] + le_bytes_of_nat(n / 256, (w - 1) as nat)
    }
}

proof fn lemma_le_bytes_of_nat_len(n: nat, w: nat)
    ensures
        le_bytes_of_nat(n, w).len() == w,
    decreases w,
{
    if w > 0 {
        lemma_le_bytes_of_nat_len(n / 256, (w - 1) as nat);
    }
}

proof fn lemma_le_bytes_of_nat_round_trip(n: nat, w: nat)
    requires
        n < pow256(w),
    ensures
        le_bytes_to_nat(le_bytes_of_nat(n, w)) == n,
    decreases w,
{
    if w > 0 {
        assert(n / 256 < pow256((w - 1) as nat)) by (nonlinear_arith)
            requires
                n < pow256(w),
                pow256(w) == 256 * pow256((w - 1) as nat),
        ;
        lemma_le_bytes_of_nat_round_trip(n / 256, (w - 1) as nat);
        lemma_le_bytes_of_nat_len(n / 256, (w - 1) as nat);
        let s = le_bytes_of_nat(n, w);
        assert(s.drop_first() =~= le_bytes_of_nat(n / 256, (w - 1) as nat));
        assert(n % 256 + 256 * (n / 256) == n) by (nonlinear_arith);
    }
}

/// One run to encode: a cluster count, a signed cluster delta, and the byte
/// widths the two fields are written with.
pub struct RunSpec {
    pub count: nat,
    pub delta: int,
    pub count_width: nat,
    pub offset_width: nat,
}

impl RunSpec {
    /// The widths are in range and the fields fit them (the delta as a
    /// two's-complement value of `offset_width` bytes).
    pub open spec fn wf(self) -> bool {
        &&& self.count_width <= 8
        &&& 1 <= self.offset_width <= 8
        &&& self.count < pow256(self.count_width)
        &&& -(pow256(self.offset_width) / 2) <= self.delta < pow256(self.offset_width) / 2
    }
}

/// The encoding of one run entry: the width-nibbles header byte, then the
/// count and the delta, each little-endian in its stated width.
pub open spec fn spec_encode_run(r: RunSpec) -> Seq<u8> {
    let raw_delta = if r.delta >= 0 {
        r.delta as nat
    } else {
        (r.delta + pow256(r.offset_width)) as nat
    };
    seq![(r.offset_width * 16 + r.count_width) as u8] + le_bytes_of_nat(r.count, r.count_width)
        + le_bytes_of_nat(raw_delta, r.offset_width)
}

/// The encoding of a run list: each entry in order, then the terminator byte.
pub open spec fn spec_encode_runs(entries: Seq<RunSpec>) -> Seq<u8>
    decreases entries.len(),
{
    if entries.len() == 0 {
        seq![0u8]
    } else {
        spec_encode_run(entries.first()) + spec_encode_runs(entries.drop_first())
    }
}

/// The byte ranges a run list denotes: each entry's start is the previous
/// start plus its delta in bytes; `None` where a start would be negative or
/// an end would not be addressable.
pub open spec fn spec_runs_of_entries(entries: Seq<RunSpec>, prev: int, bpc: nat) -> Option<
    Seq<DataRun>,
>
    decreases entries.len(),
{
    if entries.len() == 0 {
        Some(Seq::empty())
    } else {
        let e = entries.first();
        let start = prev + e.delta * bpc;
        let end = start + e.count * bpc;
        if start < 0 || end > usize::MAX {
            None
        } else {
            match spec_runs_of_entries(entries.drop_first(), start, bpc) {
                None => None,
                Some(rest) => Some(
                    seq![DataRun { start: start as usize, end: end as usize }] + rest,
                ),
            }
        }
    }
}

/// Round trip of the data-run coding: decoding an encoded run list yields
/// exactly the byte ranges the list denotes, negative deltas included.
/// (Decoding starts at `pos` inside `data`; everything from `pos` on is the
/// encoding.)
proof fn lemma_decode_encoded_runs(
    data: Seq<u8>,
    pos: int,
    entries: Seq<RunSpec>,
    prev: int,
    bpc: nat,
)
    requires
        0 <= pos <= data.len(),
        data.subrange(pos, data.len() as int) =~= spec_encode_runs(entries),
        forall|i: int| 0 <= i < entries.len() ==> #[trigger] entries[i].wf(),
        0 <= prev <= usize::MAX,
    ensures
        spec_decode_runs(data, pos, prev, bpc) == spec_runs_of_entries(entries, prev, bpc),
    decreases entries.len(),
{
    let tail = data.subrange(pos, data.len() as int);
    if entries.len() == 0 {
        assert(spec_encode_runs(entries) =~= seq![0u8]);
        assert(tail.len() == 1);
        assert(data[pos] == tail[0]);
        assert(data[pos] == 0);
    } else {
        let e = entries.first();
        assert(e.wf());
        let cs = e.count_width;
        let os = e.offset_width;
        let raw_delta = if e.delta >= 0 {
            e.delta as nat
        } else {
            (e.delta + pow256(os)) as nat
        };
        let enc = spec_encode_run(e);
        let rest_enc = spec_encode_runs(entries.drop_first());
        lemma_le_bytes_of_nat_len(e.count, cs);
        lemma_le_bytes_of_nat_len(raw_delta, os);
        lemma_encode_runs_len(entries.drop_first());
        assert(enc.len() == 1 + cs + os);
        assert(tail == enc + rest_enc);
        assert(tail.len() == enc.len() + rest_enc.len());
        assert(pos + 1 + cs + os < data.len());
        let h = (os * 16 + cs) as u8;
        assert(data[pos] == tail[0]);
        assert(tail[0] == enc[0]);
        assert(enc[0] == h);
        let csb = cs as u8;
        let osb = os as u8;
        assert(h != 0 && (h & 0x0F) == csb && (h >> 4) == osb) by (bit_vector)
            requires
                h == osb * 16 + csb,
                csb <= 8,
                1 <= osb <= 8,
        ;
        // The count and delta fields are the encoded ones.
        assert forall|i: int| 0 <= i < cs implies data.subrange(pos + 1, pos + 1 + cs)[i]
            == le_bytes_of_nat(e.count, cs)[i] by {
            assert(data[pos + 1 + i] == tail[1 + i]);
            assert(tail[1 + i] == enc[1 + i]);
            assert(enc[1 + i] == le_bytes_of_nat(e.count, cs)[i]);
        }
        assert(data.subrange(pos + 1, pos + 1 + cs) =~= le_bytes_of_nat(e.count, cs));
        assert forall|i: int| 0 <= i < os implies data.subrange(pos + 1 + cs, pos + 1 + cs + os)[i]
            == le_bytes_of_nat(raw_delta, os)[i] by {
            assert(data[pos + 1 + cs + i] == tail[1 + cs + i]);
            assert(tail[1 + cs + i] == enc[1 + cs + i]);
            assert(enc[1 + cs + i] == le_bytes_of_nat(raw_delta, os)[i]);
        }
        assert(data.subrange(pos + 1 + cs, pos + 1 + cs + os) =~= le_bytes_of_nat(raw_delta, os));
        lemma_le_bytes_of_nat_round_trip(e.count, cs);
        assert(raw_delta < pow256(os)) by {
            if e.delta >= 0 {
                lemma_pow256_increases(1, os);
            }
        }
        lemma_le_bytes_of_nat_round_trip(raw_delta, os);
        // The sign decodes back: the encoded value is at or above half the
        // range exactly for negative deltas.
        assert(pow256(os) % 2 == 0) by {
            lemma_pow256_values();
            lemma_pow256_divides(os);
        }
        assert(le_bytes_to_int(data.subrange(pos + 1 + cs, pos + 1 + cs + os)) == e.delta);
        let start = prev + e.delta * bpc;
        let end = start + e.count * bpc;
        if start < 0 || end > usize::MAX {
        } else {
            assert forall|i: int| 0 <= i < rest_enc.len() implies data.subrange(
                pos + 1 + cs + os,
                data.len() as int,
            )[i] == rest_enc[i] by {
                assert(data[pos + 1 + cs + os + i] == tail[1 + cs + os + i]);
                assert(tail[1 + cs + os + i] == rest_enc[i]);
            }
            assert(data.subrange(pos + 1 + cs + os, data.len() as int) =~= rest_enc);
            assert(forall|i: int|
                0 <= i < entries.drop_first().len() ==> #[trigger] entries.drop_first()[i].wf());
            lemma_decode_encoded_runs(data, pos + 1 + cs + os, entries.drop_first(), start, bpc);
        }
    }
}

proof fn lemma_encode_runs_len(entries: Seq<RunSpec>)
    ensures
        spec_encode_runs(entries).len() >= 1,
    decreases entries.len(),
{
    if entries.len() > 0 {
        lemma_encode_runs_len(entries.drop_first());
    }
}

proof fn lemma_pow256_divides(e: nat)
    requires
        e >= 1,
    ensures
        pow256(e) % 2 == 0,
    decreases e,
{
    if e == 1 {
        lemma_pow256_values();
    } else {
        lemma_pow256_divides((e - 1) as nat);
        assert(pow256(e) == 256 * pow256((e - 1) as nat));
        assert((256 * pow256((e - 1) as nat)) % 2 == 0) by (nonlinear_arith);
    }
}

/// The round-trip law at the stream's start: decoding the encoding of any
/// well-formed run list reproduces the byte ranges the list denotes.
pub proof fn lemma_run_list_round_trip(entries: Seq<RunSpec>, bpc: nat)
    requires
        forall|i: int| 0 <= i < entries.len() ==> #[trigger] entries[i].wf(),
    ensures
        spec_decode_runs(spec_encode_runs(entries), 0, 0, bpc) == spec_runs_of_entries(
            entries,
            0,
            bpc,
        ),
{
    let data = spec_encode_runs(entries);
    assert(data.subrange(0, data.len() as int) =~= data);
    lemma_decode_encoded_runs(data, 0, entries, 0, bpc);
}

/// The attribute type codes of the MFT attribute header.
#[derive(Debug, Copy, Clone, PartialEq, Eq, Structural)]
pub enum AttributeType {
    StandardInformation,
    AttributeList,
    FileName,
    ObjectId,
    SecurityDescriptor,
    VolumeName,
    VolumeInformation,
    Data,
    IndexRoot,
    IndexAllocation,
    Bitmap,
    ReparsePoint,
    EAInformation,
    EA,
    PropertySet,
    LoggedUtilityStream,
    End,
}

impl AttributeType {
    /// The on-disk 32-bit code of this attribute type.
    pub open spec fn spec_code(self) -> u32 {
        match self {
            AttributeType::StandardInformation => 0x10,
            AttributeType::AttributeList => 0x20,
            AttributeType::FileName => 0x30,
            AttributeType::ObjectId => 0x40,
            AttributeType::SecurityDescriptor => 0x50,
            AttributeType::VolumeName => 0x60,
            AttributeType::VolumeInformation => 0x70,
            AttributeType::Data => 0x80,
            AttributeType::IndexRoot => 0x90,
            AttributeType::IndexAllocation => 0xA0,
            AttributeType::Bitmap => 0xB0,
            AttributeType::ReparsePoint => 0xC0,
            AttributeType::EAInformation => 0xD0,
            AttributeType::EA => 0xE0,
            AttributeType::PropertySet => 0xF0,
            AttributeType::LoggedUtilityStream => 0x100,
            AttributeType::End => 0xFFFFFFFF,
        }
    }

    /// The on-disk 32-bit code of this attribute type.
    #[verifier::when_used_as_spec(spec_code)]
    pub fn code(self) -> (r: u32)
        ensures
            r == self.spec_code(),
    {
        match self {
            AttributeType::StandardInformation => 0x10,
            AttributeType::AttributeList => 0x20,
            AttributeType::FileName => 0x30,
            AttributeType::ObjectId => 0x40,
            AttributeType::SecurityDescriptor => 0x50,
            AttributeType::VolumeName => 0x60,
            AttributeType::VolumeInformation => 0x70,
            AttributeType::Data => 0x80,
            AttributeType::IndexRoot => 0x90,
            AttributeType::IndexAllocation => 0xA0,
            AttributeType::Bitmap => 0xB0,
            AttributeType::ReparsePoint => 0xC0,
            AttributeType::EAInformation => 0xD0,
            AttributeType::EA => 0xE0,
            AttributeType::PropertySet => 0xF0,
            AttributeType::LoggedUtilityStream => 0x100,
            AttributeType::End => 0xFFFFFFFF,
        }
    }
}

/// The tail of a resident attribute header: where the inline value lies.
#[derive(Debug, Copy, Clone, PartialEq, Eq, Structural)]
pub struct ResidentAttributeHeader {
    pub value_length: u32,
    pub value_offset: u16,
    pub indexed_flag: u8,
}

/// The tail of a non-resident attribute header: the attribute's sizes and
/// the offset of its data-run stream.
#[derive(Debug, Copy, Clone, PartialEq, Eq, Structural)]
pub struct NonResidentAttributeHeader {
    pub starting_vcn: u64,
    pub ending_vcn: u64,
    pub data_runs_offset: u16,
    pub compression_unit_size: u16,
    pub allocated_size: u64,
    pub real_size: u64,
    pub initialized_size: u64,
}

/// The residency-dependent tail of an attribute header.
#[derive(Debug, Copy, Clone, PartialEq, Eq, Structural)]
pub enum AttributeTail {
    Resident(ResidentAttributeHeader),
    NonResident(NonResidentAttributeHeader),
}

/// One parsed MFT attribute header: the 16 common bytes plus the tail that
/// the residency byte selects.
#[derive(Debug, Copy, Clone, PartialEq, Eq, Structural)]
pub struct AttributeHeader {
    pub attribute_type: u32,
    pub length: u32,
    pub name_length: u8,
    pub name_offset: u16,
    pub flags: u16,
    pub attribute_id: u16,
    pub tail: AttributeTail,
}

impl AttributeHeader {
    /// Whether the attribute's value lives outside the record, in data runs.
    pub open spec fn spec_non_resident(&self) -> bool {
        self.tail is NonResident
    }

    /// Whether the attribute's value lives outside the record, in data runs.
    #[verifier::when_used_as_spec(spec_non_resident)]
    pub fn non_resident(&self) -> (r: bool)
        ensures
            r == self.spec_non_resident(),
    {
        match self.tail {
            AttributeTail::NonResident(_) => true,
            AttributeTail::Resident(_) => false,
        }
    }
}

/// Parses an attribute header from the start of `data`: the 16 common bytes,
/// then the resident tail (8 more bytes) or the non-resident tail (48 more),
/// as the residency byte says. `None` where `data` is too short for that.
pub open spec fn spec_parse_attribute_header(data: Seq<u8>) -> Option<AttributeHeader> {
    if data.len() < 16 {
        None
    } else {
        let attribute_type = spec_u32_from_le_bytes(data.subrange(0, 4));
        let length = spec_u32_from_le_bytes(data.subrange(4, 8));
        let non_resident = data[8] != 0;
        let name_length = data[9];
        let name_offset = spec_u16_from_le_bytes(data.subrange(10, 12));
        let flags = spec_u16_from_le_bytes(data.subrange(12, 14));
        let attribute_id = spec_u16_from_le_bytes(data.subrange(14, 16));
        if !non_resident {
            if data.len() < 24 {
                None
            } else {
                Some(
                    AttributeHeader {
                        attribute_type,
                        length,
                        name_length,
                        name_offset,
                        flags,
                        attribute_id,
                        tail: AttributeTail::Resident(
                            ResidentAttributeHeader {
                                value_length: spec_u32_from_le_bytes(data.subrange(16, 20)),
                                value_offset: spec_u16_from_le_bytes(data.subrange(20, 22)),
                                indexed_flag: data[22],
                            },
                        ),
                    },
                )
            }
        } else {
            if data.len() < 64 {
                None
            } else {
                Some(
                    AttributeHeader {
                        attribute_type,
                        length,
                        name_length,
                        name_offset,
                        flags,
                        attribute_id,
                        tail: AttributeTail::NonResident(
                            NonResidentAttributeHeader {
                                starting_vcn: spec_u64_from_le_bytes(data.subrange(16, 24)),
                                ending_vcn: spec_u64_from_le_bytes(data.subrange(24, 32)),
                                data_runs_offset: spec_u16_from_le_bytes(data.subrange(32, 34)),
                                compression_unit_size: spec_u16_from_le_bytes(
                                    data.subrange(34, 36),
                                ),
                                allocated_size: spec_u64_from_le_bytes(data.subrange(40, 48)),
                                real_size: spec_u64_from_le_bytes(data.subrange(48, 56)),
                                initialized_size: spec_u64_from_le_bytes(data.subrange(56, 64)),
                            },
                        ),
                    },
                )
            }
        }
    }
}

/// One attribute of a file record: its parsed header, over the raw bytes
/// from the attribute's start to the end of the record slice.
#[derive(Clone, Copy)]
pub struct Attribute<'a> {
    pub header: AttributeHeader,
    pub data: &'a [u8],
}

impl<'a> Attribute<'a> {
    /// The header is what parsing this attribute's own bytes yields.
    pub open spec fn wf(self) -> bool {
        spec_parse_attribute_header(self.data@) == Some(self.header)
    }

    /// Parses the attribute header at the start of `data`; `None` where the
    /// slice is too short for the header its residency byte asks for.
    pub fn new(data: &'a [u8]) -> (r: Option<Attribute<'a>>)
        ensures
            r is Some <==> spec_parse_attribute_header(data@) is Some,
            r is Some ==> {
                &&& r->Some_0.header == spec_parse_attribute_header(data@)->Some_0
                &&& r->Some_0.data@ == data@
                &&& r->Some_0.wf()
            },
    {
        if data.len() < 16 {
            return None;
        }
        let attribute_type = u32_from_le_bytes(slice_subrange(data, 0, 4));
        let length = u32_from_le_bytes(slice_subrange(data, 4, 8));
        let non_resident = data[8] != 0;
        let name_length = data[9];
        let name_offset = u16_from_le_bytes(slice_subrange(data, 10, 12));
        let flags = u16_from_le_bytes(slice_subrange(data, 12, 14));
        let attribute_id = u16_from_le_bytes(slice_subrange(data, 14, 16));
        let tail: AttributeTail;
        if !non_resident {
            if data.len() < 24 {
                return None;
            }
            tail = AttributeTail::Resident(
                ResidentAttributeHeader {
                    value_length: u32_from_le_bytes(slice_subrange(data, 16, 20)),
                    value_offset: u16_from_le_bytes(slice_subrange(data, 20, 22)),
                    indexed_flag: data[22],
                },
            );
        } else {
            if data.len() < 64 {
                return None;
            }
            tail = AttributeTail::NonResident(
                NonResidentAttributeHeader {
                    starting_vcn: u64_from_le_bytes(slice_subrange(data, 16, 24)),
                    ending_vcn: u64_from_le_bytes(slice_subrange(data, 24, 32)),
                    data_runs_offset: u16_from_le_bytes(slice_subrange(data, 32, 34)),
                    compression_unit_size: u16_from_le_bytes(slice_subrange(data, 34, 36)),
                    allocated_size: u64_from_le_bytes(slice_subrange(data, 40, 48)),
                    real_size: u64_from_le_bytes(slice_subrange(data, 48, 56)),
                    initialized_size: u64_from_le_bytes(slice_subrange(data, 56, 64)),
                },
            );
        }
        Some(
            Attribute {
                header: AttributeHeader {
                    attribute_type,
                    length,
                    name_length,
                    name_offset,
                    flags,
                    attribute_id,
                    tail,
                },
                data,
            },
        )
    }

    /// Decodes this attribute's data runs, scaled by `bytes_per_cluster`.
    pub fn decode_data_runs(&self, bytes_per_cluster: usize) -> (r: Option<(u64, Vec<DataRun>)>)
        requires
            self.wf(),
        ensures
            r is Some <==> spec_attr_data_runs(
                self.header,
                self.data@,
                bytes_per_cluster as nat,
            ) is Some,
            r is Some ==> {
                let s = spec_attr_data_runs(self.header, self.data@, bytes_per_cluster as nat);
                r->Some_0.0 == s->Some_0.0 && r->Some_0.1@ == s->Some_0.1
            },
    {
        let nr = match &self.header.tail {
            AttributeTail::NonResident(nr) => *nr,
            AttributeTail::Resident(_) => {
                return None;
            },
        };
        if self.header.attribute_type != AttributeType::Data.code() {
            return None;
        }
        let total_size = nr.real_size;
        if total_size == 0 {
            return Some((0, Vec::new()));
        }
        match decode_run_list(self.data, nr.data_runs_offset as usize, bytes_per_cluster) {
            None => None,
            Some(runs) => Some((total_size, runs)),
        }
    }
}

/// What decoding the data runs of an attribute yields: the attribute must be
/// a non-resident `$DATA` attribute; a zero real size short-circuits to an
/// empty run list; otherwise the run stream at `data_runs_offset` is decoded.
pub open spec fn spec_attr_data_runs(h: AttributeHeader, data: Seq<u8>, bpc: nat) -> Option<
    (u64, Seq<DataRun>),
> {
    if h.attribute_type != AttributeType::Data.spec_code() || !(h.tail is NonResident) {
        None
    } else {
        let nr = h.tail->NonResident_0;
        if nr.real_size == 0 {
            Some((0u64, Seq::empty()))
        } else {
            match spec_decode_runs(data, nr.data_runs_offset as int, 0, bpc) {
                None => None,
                Some(runs) => Some((nr.real_size, runs)),
            }
        }
    }
}

} // verus!
