//! The `GRP2` archive container: an ordered table of named, byte-ranged,
//! optionally frame-compressed entries over one immutable buffer.
//!
//! Layout, as reverse-engineered: a 4-byte ASCII tag, a declared header size
//! at offset 0x04, a declared entry count at offset 0x14, `count` 4-byte
//! name-table offsets from 0x40 on, the zero-terminated path strings those
//! offsets point at, and a per-entry data-index table of 12-byte records of
//! which only the first 4 bytes (the entry's absolute data offset) are used.
//! The data-index table is found 5 bytes past the end of the last path
//! string; that pad is an empirically observed constant, not a documented
//! field.

use vstd::prelude::*;
use vstd::utf8::{decode_utf8, valid_utf8};

use crate::bytes::{cstr_end, get_u32, le32_at, read_cstr};
use crate::bytes::lemma_cstr_end_from_scan;
use crate::codec::{classify, decompress, spec_classify, Compression};
use crate::errors::DecodeError;

verus! {

/// One packed file inside the archive. It owns no bytes; it names a range
/// of the archive's buffer.
#[derive(Clone, Debug)]
pub struct GrpEntry {
    /// Position in the entry table.
    pub index: u32,
    /// Relative path with `/` separators, from the name table.
    pub full_path: String,
    /// Absolute offset of the entry's data in the archive buffer.
    pub start: u64,
    /// Number of bytes of data, up to the next entry's start (or the end of
    /// the buffer for the last entry).
    pub size: u64,
    /// How the range is stored, classified once at parse time.
    pub compression: Compression,
}

/// A parsed archive: the raw buffer plus its decoded entry table.
#[derive(Debug)]
pub struct GrpFile {
    /// The full raw bytes of the container file.
    pub file_data: Vec<u8>,
    /// The header size the container declares at offset 0x04.
    pub header_size: u32,
    /// The entry count the container declares at offset 0x14.
    pub file_count: u32,
    /// The first entry's data offset.
    pub data_start: u32,
    /// The entry table, in name-table order, which equals ascending data
    /// offset order.
    pub entries: Vec<GrpEntry>,
}

/// True when the buffer opens with the ASCII container tag `GRP2`.
pub open spec fn grp_magic_ok(b: Seq<u8>) -> bool {
    &&& b.len() >= 4
    &&& b[0] == 0x47u8
    &&& b[1] == 0x52u8
    &&& b[2] == 0x50u8
    &&& b[3] == 0x32u8
}

/// The declared header size field.
pub open spec fn spec_header_size(b: Seq<u8>) -> u32 {
    le32_at(b, 0x04)
}

/// The declared entry count field.
pub open spec fn spec_file_count(b: Seq<u8>) -> u32 {
    le32_at(b, 0x14)
}

/// The name-table offset of entry `i`'s path string.
pub open spec fn name_off(b: Seq<u8>, i: int) -> u32 {
    le32_at(b, 0x40 + 4 * i)
}

/// Where entry `i`'s path string ends (its zero terminator).
pub open spec fn name_end(b: Seq<u8>, i: int) -> int {
    cstr_end(b, name_off(b, i) as int)
}

/// Addition that stops at the machine's address limit, as the parser's
/// offset arithmetic does.
pub open spec fn sat_add(a: int, d: int) -> int {
    if a + d > usize::MAX as int {
        usize::MAX as int
    } else {
        a + d
    }
}

/// Where the per-entry data-index table starts: 5 bytes past the last path
/// string's terminator.
pub open spec fn index_base(b: Seq<u8>) -> int {
    sat_add(name_end(b, spec_file_count(b) as int - 1), 5)
}

/// The offset of entry `i`'s 12-byte data-index record.
pub open spec fn index_off(b: Seq<u8>, i: int) -> int {
    sat_add(index_base(b), 12 * i)
}

/// The absolute data offset recorded for entry `i`.
pub open spec fn start_of(b: Seq<u8>, i: int) -> u32 {
    le32_at(b, index_off(b, i))
}

/// The first failure, if any, while reading the name-table offsets from
/// entry `i` on.
pub open spec fn name_table_err(b: Seq<u8>, i: int) -> Option<DecodeError>
    decreases spec_file_count(b) - i,
{
    if i < 0 || i >= spec_file_count(b) {
        None
    } else if sat_add(0x40, 4 * i) + 4 > b.len() {
        Some(DecodeError::Bounds(sat_add(0x40, 4 * i) as usize))
    } else {
        name_table_err(b, i + 1)
    }
}

/// The first failure, if any, while reading the path strings from entry `i`
/// on: an unterminated string, then non-text bytes.
pub open spec fn names_err(b: Seq<u8>, i: int) -> Option<DecodeError>
    decreases spec_file_count(b) - i,
{
    if i < 0 || i >= spec_file_count(b) {
        None
    } else {
        let o = name_off(b, i) as int;
        if cstr_end(b, o) >= b.len() {
            Some(DecodeError::Bounds(name_off(b, i) as usize))
        } else if !valid_utf8(b.subrange(o, cstr_end(b, o))) {
            Some(DecodeError::Encoding)
        } else {
            names_err(b, i + 1)
        }
    }
}

/// The first failure, if any, while reading the data-index records from
/// entry `i` on.
pub open spec fn index_err(b: Seq<u8>, i: int) -> Option<DecodeError>
    decreases spec_file_count(b) - i,
{
    if i < 0 || i >= spec_file_count(b) {
        None
    } else if index_off(b, i) + 4 > b.len() {
        Some(DecodeError::Bounds(index_off(b, i) as usize))
    } else {
        index_err(b, i + 1)
    }
}

/// The first failure, if any, while validating the recorded data offsets
/// from entry `i` on: an offset past the buffer, then a drop in order.
pub open spec fn layout_err(b: Seq<u8>, i: int) -> Option<DecodeError>
    decreases spec_file_count(b) - i,
{
    if i < 0 || i >= spec_file_count(b) {
        None
    } else if start_of(b, i) as int > b.len() {
        Some(DecodeError::Size)
    } else if i > 0 && start_of(b, i - 1) > start_of(b, i) {
        Some(DecodeError::Format)
    } else {
        layout_err(b, i + 1)
    }
}

/// Why `parse` rejects this buffer, or `None` when it accepts it. The cases
/// are tried in the parser's own order.
pub open spec fn spec_parse_err(b: Seq<u8>) -> Option<DecodeError> {
    if !grp_magic_ok(b) {
        Some(DecodeError::Format)
    } else if b.len() < 0x08 {
        Some(DecodeError::Bounds(0x04))
    } else if b.len() < 0x18 {
        Some(DecodeError::Bounds(0x14))
    } else if spec_file_count(b) == 0 {
        Some(DecodeError::Format)
    } else if name_table_err(b, 0) is Some {
        name_table_err(b, 0)
    } else if names_err(b, 0) is Some {
        names_err(b, 0)
    } else if index_err(b, 0) is Some {
        index_err(b, 0)
    } else {
        layout_err(b, 0)
    }
}

/// What entry `i` of a well-formed buffer must hold: its table position,
/// the path string the name table points at, the recorded data offset, the
/// size up to the next offset (or the buffer's end), and the compression
/// kind its first bytes show.
pub open spec fn entry_wf(b: Seq<u8>, n: int, i: int, e: GrpEntry) -> bool {
    let st = start_of(b, i) as int;
    let en = if i == n - 1 {
        b.len() as int
    } else {
        start_of(b, i + 1) as int
    };
    &&& e.index == i
    &&& e.full_path@ == decode_utf8(b.subrange(name_off(b, i) as int, name_end(b, i)))
    &&& e.start == start_of(b, i) as u64
    &&& e.size == en - st
    &&& e.compression == spec_classify(b, st, en - st)
}

/// The header checks that every later parse phase builds on.
pub open spec fn header_ok(b: Seq<u8>) -> bool {
    &&& grp_magic_ok(b)
    &&& b.len() >= 0x18
    &&& spec_file_count(b) >= 1
}

/// Reads the `count` name-table offsets that start at 0x40.
#[verifier::loop_isolation(false)]
fn read_name_table(b: &[u8], count: usize) -> (r: Result<Vec<u32>, DecodeError>)
    requires
        header_ok(b@),
        count == spec_file_count(b@),
    ensures
        match r {
            Ok(v) => {
                &&& name_table_err(b@, 0) is None
                &&& v@.len() == count
                &&& forall|j: int| 0 <= j < count ==> v@[j] == name_off(b@, j)
            },
            Err(e) => name_table_err(b@, 0) == Some(e),
        },
{
    let len = b.len();
    let mut name_offsets: Vec<u32> = Vec::new();
    let mut noff: usize = 0x40;
    let mut i: usize = 0;
    while i < count
        invariant
            0 <= i <= count,
            noff as int == sat_add(0x40, 4 * i as int),
            name_offsets@.len() == i,
            forall|j: int| 0 <= j < i ==> name_offsets@[j] == name_off(b@, j),
            name_table_err(b@, 0) == name_table_err(b@, i as int),
        decreases count - i,
    {
        match get_u32(b, noff) {
            Ok(v) => {
                proof {
                    // The read stayed in bounds, so the offset never saturated.
                    assert(noff as int == 0x40 + 4 * i as int);
                    assert(v == name_off(b@, i as int));
                }
                name_offsets.push(v);
            },
            Err(e) => {
                return Err(e);
            },
        }
        noff = noff.saturating_add(4);
        i = i + 1;
    }
    Ok(name_offsets)
}

/// Reads the zero-terminated path string behind each name-table offset.
#[verifier::loop_isolation(false)]
fn read_names(b: &[u8], name_offsets: &Vec<u32>, count: usize) -> (r: Result<
    Vec<String>,
    DecodeError,
>)
    requires
        header_ok(b@),
        count == spec_file_count(b@),
        name_offsets@.len() == count,
        forall|j: int| 0 <= j < count ==> name_offsets@[j] == name_off(b@, j),
    ensures
        match r {
            Ok(v) => {
                &&& names_err(b@, 0) is None
                &&& v@.len() == count
                &&& forall|j: int|
                    0 <= j < count ==> (#[trigger] v@[j])@ == decode_utf8(
                        b@.subrange(name_off(b@, j) as int, name_end(b@, j)),
                    )
                &&& forall|j: int|
                    0 <= j < count ==> name_off(b@, j) <= #[trigger] name_end(b@, j) < b@.len()
            },
            Err(e) => names_err(b@, 0) == Some(e),
        },
{
    let mut names: Vec<String> = Vec::new();
    let mut i: usize = 0;
    while i < count
        invariant
            0 <= i <= count,
            names@.len() == i,
            forall|j: int|
                0 <= j < i ==> (#[trigger] names@[j])@ == decode_utf8(
                    b@.subrange(name_off(b@, j) as int, name_end(b@, j)),
                ),
            forall|j: int|
                0 <= j < i ==> name_off(b@, j) <= #[trigger] name_end(b@, j) < b@.len(),
            names_err(b@, 0) == names_err(b@, i as int),
        decreases count - i,
    {
        match read_cstr(b, name_offsets[i] as usize) {
            Ok(s) => {
                names.push(s);
            },
            Err(e) => {
                proof {
                    assert(name_offsets@[i as int] == name_off(b@, i as int));
                    assert(names_err(b@, i as int) == Some(e));
                }
                return Err(e);
            },
        }
        i = i + 1;
    }
    Ok(names)
}

/// Finds where the data-index table starts: the last path string's
/// terminator plus the empirically observed 5-byte pad.
#[verifier::loop_isolation(false)]
fn find_index_base(b: &[u8], last_off: usize, count: usize) -> (r: usize)
    requires
        header_ok(b@),
        count == spec_file_count(b@),
        last_off == name_off(b@, count as int - 1),
        last_off <= b@.len(),
    ensures
        r as int == index_base(b@),
{
    let mut term: usize = last_off;
    let len = b.len();
    while term < len && b[term] != 0
        invariant
            last_off <= term <= len,
            len == b@.len(),
            forall|j: int| last_off <= j < term ==> b@[j] != 0,
        decreases len - term,
    {
        term = term + 1;
    }
    proof {
        lemma_cstr_end_from_scan(b@, last_off as int, term as int);
        assert(term as int == name_end(b@, count as int - 1));
    }
    term.saturating_add(5)
}

/// Reads the recorded data offset out of each 12-byte index record.
#[verifier::loop_isolation(false)]
fn read_starts(b: &[u8], ib: usize, count: usize) -> (r: Result<Vec<u32>, DecodeError>)
    requires
        header_ok(b@),
        count == spec_file_count(b@),
        ib as int == index_base(b@),
    ensures
        match r {
            Ok(v) => {
                &&& index_err(b@, 0) is None
                &&& v@.len() == count
                &&& forall|j: int| 0 <= j < count ==> v@[j] == start_of(b@, j)
            },
            Err(e) => index_err(b@, 0) == Some(e),
        },
{
    let mut starts: Vec<u32> = Vec::new();
    let mut off: usize = ib;
    let mut i: usize = 0;
    while i < count
        invariant
            0 <= i <= count,
            off as int == index_off(b@, i as int),
            starts@.len() == i,
            forall|j: int| 0 <= j < i ==> starts@[j] == start_of(b@, j),
            index_err(b@, 0) == index_err(b@, i as int),
        decreases count - i,
    {
        match get_u32(b, off) {
            Ok(v) => {
                starts.push(v);
            },
            Err(_) => {
                return Err(DecodeError::Bounds(off));
            },
        }
        off = off.saturating_add(12);
        i = i + 1;
    }
    Ok(starts)
}

/// Checks that the recorded data offsets stay inside the buffer and ascend.
#[verifier::loop_isolation(false)]
fn validate_starts(b: &[u8], starts: &Vec<u32>, count: usize) -> (r: Result<(), DecodeError>)
    requires
        header_ok(b@),
        count == spec_file_count(b@),
        starts@.len() == count,
        forall|j: int| 0 <= j < count ==> starts@[j] == start_of(b@, j),
    ensures
        match r {
            Ok(_) => {
                &&& layout_err(b@, 0) is None
                &&& forall|j: int| 0 <= j < count ==> start_of(b@, j) as int <= b@.len()
                &&& forall|j: int|
                    1 <= j < count ==> #[trigger] start_of(b@, j) >= start_of(b@, j - 1)
            },
            Err(e) => layout_err(b@, 0) == Some(e),
        },
{
    let len = b.len();
    let mut i: usize = 0;
    while i < count
        invariant
            0 <= i <= count,
            len == b@.len(),
            forall|j: int| 0 <= j < i ==> start_of(b@, j) as int <= b@.len(),
            forall|j: int| 1 <= j < i ==> #[trigger] start_of(b@, j) >= start_of(b@, j - 1),
            layout_err(b@, 0) == layout_err(b@, i as int),
        decreases count - i,
    {
        if starts[i] as usize > len {
            return Err(DecodeError::Size);
        }
        if i > 0 && starts[i - 1] > starts[i] {
            return Err(DecodeError::Format);
        }
        proof {
            assert(starts@[i as int] == start_of(b@, i as int));
            assert(start_of(b@, i as int) as int <= b@.len());
        }
        i = i + 1;
    }
    Ok(())
}

/// Builds the entry table from the validated names and data offsets.
#[verifier::loop_isolation(false)]
fn build_entries(b: &[u8], names: &Vec<String>, starts: &Vec<u32>, count: usize) -> (r: Vec<
    GrpEntry,
>)
    requires
        header_ok(b@),
        count == spec_file_count(b@),
        names@.len() == count,
        starts@.len() == count,
        forall|j: int| 0 <= j < count ==> starts@[j] == start_of(b@, j),
        forall|j: int|
            0 <= j < count ==> (#[trigger] names@[j])@ == decode_utf8(
                b@.subrange(name_off(b@, j) as int, name_end(b@, j)),
            ),
        forall|j: int| 0 <= j < count ==> start_of(b@, j) as int <= b@.len(),
        forall|j: int| 1 <= j < count ==> #[trigger] start_of(b@, j) >= start_of(b@, j - 1),
    ensures
        r@.len() == count,
        forall|j: int| 0 <= j < count ==> entry_wf(b@, count as int, j, #[trigger] r@[j]),
{
    let len = b.len();
    let mut entries: Vec<GrpEntry> = Vec::new();
    let mut i: usize = 0;
    while i < count
        invariant
            0 <= i <= count,
            len == b@.len(),
            entries@.len() == i,
            forall|j: int| 0 <= j < i ==> entry_wf(b@, count as int, j, #[trigger] entries@[j]),
        decreases count - i,
    {
        let st = starts[i];
        let en: usize = if i + 1 < count {
            starts[i + 1] as usize
        } else {
            len
        };
        let size = en - st as usize;
        let head: usize = if size >= 4 {
            4
        } else {
            size
        };
        let compression = classify(b, st as usize, head);
        let e = GrpEntry {
            index: i as u32,
            full_path: names[i].clone(),
            start: st as u64,
            size: size as u64,
            compression,
        };
        proof {
            assert(spec_classify(b@, st as int, head as int) == spec_classify(
                b@,
                st as int,
                size as int,
            ));
            assert(entry_wf(b@, count as int, i as int, e));
        }
        entries.push(e);
        i = i + 1;
    }
    entries
}

impl GrpFile {
    /// Parses a container buffer into its entry table, all-or-nothing.
    ///
    /// On success the table has exactly the declared number of entries, in
    /// ascending data-offset order, and their byte ranges tile the buffer
    /// from the first entry's start to the buffer's end with no gap and no
    /// overlap.
    #[verifier::loop_isolation(false)]
    #[verifier::rlimit(60)]
    pub fn parse(file_data: Vec<u8>) -> (r: Result<GrpFile, DecodeError>)
        ensures
            match r {
                Ok(g) => {
                    let b = file_data@;
                    let n = spec_file_count(b) as int;
                    &&& spec_parse_err(b) is None
                    &&& g.file_data@ == b
                    &&& g.header_size == spec_header_size(b)
                    &&& g.file_count == spec_file_count(b)
                    &&& g.file_count >= 1
                    &&& g.data_start == start_of(b, 0)
                    &&& g.entries@.len() == n
                    &&& forall|i: int|
                        0 <= i < n ==> entry_wf(b, n, i, #[trigger] g.entries@[i])
                    &&& forall|i: int|
                        0 <= i < n - 1 ==> (#[trigger] g.entries@[i].start) + g.entries@[i].size
                            == g.entries@[i + 1].start
                    &&& g.entries@[n - 1].start + g.entries@[n - 1].size == b.len()
                },
                Err(e) => spec_parse_err(file_data@) == Some(e),
            },
    {
        let b = file_data.as_slice();
        let len = b.len();
        if len < 4 || b[0] != 0x47 || b[1] != 0x52 || b[2] != 0x50 || b[3] != 0x32 {
            return Err(DecodeError::Format);
        }
        let header_size = match get_u32(b, 0x04) {
            Ok(v) => v,
            Err(e) => {
                return Err(e);
            },
        };
        let file_count = match get_u32(b, 0x14) {
            Ok(v) => v,
            Err(e) => {
                return Err(e);
            },
        };
        if file_count == 0 {
            return Err(DecodeError::Format);
        }
        let count = file_count as usize;

        let name_offsets = match read_name_table(b, count) {
            Ok(v) => v,
            Err(e) => {
                return Err(e);
            },
        };
        let names = match read_names(b, &name_offsets, count) {
            Ok(v) => v,
            Err(e) => {
                return Err(e);
            },
        };
        let ib = find_index_base(b, name_offsets[count - 1] as usize, count);
        let starts = match read_starts(b, ib, count) {
            Ok(v) => v,
            Err(e) => {
                return Err(e);
            },
        };
        match validate_starts(b, &starts, count) {
            Ok(_) => (),
            Err(e) => {
                return Err(e);
            },
        };
        let entries = build_entries(b, &names, &starts, count);

        proof {
            let bb = file_data@;
            let n = count as int;
            assert forall|i: int| 0 <= i < n - 1 implies (#[trigger] entries@[i].start)
                + entries@[i].size == entries@[i + 1].start by {
                assert(entry_wf(bb, n, i, entries@[i]));
                assert(entry_wf(bb, n, i + 1, entries@[i + 1]));
            }
            assert(entry_wf(bb, n, n - 1, entries@[n - 1]));
        }
        let data_start = starts[0];
        Ok(GrpFile { file_data, header_size, file_count, data_start, entries })
    }

    /// Materializes one entry's bytes: the raw range copied, or the
    /// frame-compressed range decoded. Rejects a range that leaves the
    /// buffer (which a parsed table never holds) and a corrupt frame.
    pub fn read_entry(&self, entry: &GrpEntry) -> (r: Result<Vec<u8>, DecodeError>)
        ensures
            ({
                let b = self.file_data@;
                let in_bounds = entry.start + entry.size <= b.len();
                let range = b.subrange(
                    entry.start as int,
                    entry.start as int + entry.size as int,
                );
                match r {
                    Ok(out) => {
                        &&& in_bounds
                        &&& match entry.compression {
                            Compression::Raw => out@ == range,
                            Compression::FrameCompressed => crate::codec::frame_decode(range)
                                == Some(out@),
                        }
                    },
                    Err(DecodeError::Bounds(o)) => !in_bounds && o == entry.start as usize,
                    Err(DecodeError::Compression) => {
                        &&& in_bounds
                        &&& entry.compression is FrameCompressed
                        &&& crate::codec::frame_decode(range) is None
                    },
                    Err(_) => false,
                }
            }),
    {
        let len = self.file_data.len();
        if entry.start > len as u64 || entry.size > len as u64 - entry.start {
            return Err(DecodeError::Bounds(entry.start as usize));
        }
        let lo = entry.start as usize;
        let hi = lo + entry.size as usize;
        let range = &self.file_data.as_slice()[lo..hi];
        decompress(range, entry.compression)
    }
}

} // verus!
