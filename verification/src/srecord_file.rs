//! The in-memory S-Record file: a sparse store of sorted, non-overlapping
//! data chunks together with the optional header data and start address,
//! with parsing, lookup, mutation and record iteration.

use vstd::prelude::*;
use vstd::string::StringSliceAdditionalSpecFns;

use crate::data_chunk::{ChunkModel, DataChunk};
use crate::error::{ErrorType, SRecordParseError};
use crate::record::{Record, RecordModel};

verus! {

/// Struct that represents an S-Record file. It only contains the raw data,
/// not the layout of the input file.
#[derive(Debug)]
pub struct SRecordFile {
    /// Byte vector with the data of the header (S0) record.
    pub header_data: Option<Vec<u8>>,
    /// Data chunks with the actual file data (S1/S2/S3).
    pub data_chunks: Vec<DataChunk>,
    /// Start address from the end of the file (S7/S8/S9).
    pub start_address: Option<u64>,
}

/// Spec-level model of an S-Record file.
pub struct FileModel {
    /// Header data bytes, if a header record was seen.
    pub header_data: Option<Seq<u8>>,
    /// The data chunks, in ascending address order.
    pub chunks: Seq<ChunkModel>,
    /// Execution start address, if a start address record was seen.
    pub start_address: Option<u64>,
}

impl View for SRecordFile {
    type V = FileModel;

    open spec fn view(&self) -> FileModel {
        FileModel {
            header_data: match self.header_data {
                Some(ref h) => Some(h@),
                None => None,
            },
            chunks: self.data_chunks@.map_values(|c: DataChunk| c@),
            start_address: self.start_address,
        }
    }
}

/// The chunk list shape that holds while a parse is in progress: every chunk
/// is well-formed and start addresses strictly increase. Chunk ranges may
/// still overlap or touch; the merge pass at the end of a parse sorts that
/// out.
pub open spec fn chunks_pre_merge(cs: Seq<ChunkModel>) -> bool {
    &&& forall|i: int| 0 <= i < cs.len() ==> (#[trigger] cs[i]).wf()
    &&& forall|i: int, j: int| 0 <= i < j < cs.len() ==> cs[i].address < cs[j].address
}

/// The chunk list invariant of a finished file: every chunk is well-formed
/// and each chunk ends strictly before the next one starts, so chunks are
/// sorted, disjoint and never adjacent.
pub open spec fn chunks_wf(cs: Seq<ChunkModel>) -> bool {
    &&& forall|i: int| 0 <= i < cs.len() ==> (#[trigger] cs[i]).wf()
    &&& forall|i: int| 0 <= i < cs.len() - 1 ==> (#[trigger] cs[i]).end() < cs[i + 1].address
}

/// A finished file's chunk list also has the pre-merge shape.
pub proof fn lemma_chunks_wf_is_pre_merge(cs: Seq<ChunkModel>)
    requires
        chunks_wf(cs),
    ensures
        chunks_pre_merge(cs),
{
    assert forall|i: int, j: int| 0 <= i < j < cs.len() implies cs[i].address < cs[j].address by {
        lemma_end_below_later_start(cs, i, j);
    }
}

/// In a finished file, every chunk ends strictly before any later chunk
/// starts.
pub proof fn lemma_end_below_later_start(cs: Seq<ChunkModel>, i: int, j: int)
    requires
        chunks_wf(cs),
        0 <= i < j < cs.len(),
    ensures
        cs[i].end() < cs[j].address,
    decreases j - i,
{
    if j > i + 1 {
        lemma_end_below_later_start(cs, i + 1, j);
    }
}

/// The number of chunks whose start address is at most `address`.
pub open spec fn insertion_rank(cs: Seq<ChunkModel>, address: u64) -> int
    decreases cs.len(),
{
    if cs.len() == 0 {
        0
    } else if cs[0].address > address {
        0
    } else {
        1 + insertion_rank(cs.skip(1), address)
    }
}

/// On a list with strictly increasing starts, the insertion rank is the
/// unique split point between starts at most `address` and starts above it.
pub proof fn lemma_insertion_rank_from_split(cs: Seq<ChunkModel>, address: u64, r: int)
    requires
        0 <= r <= cs.len(),
        forall|i: int| 0 <= i < r ==> (#[trigger] cs[i]).address <= address,
        forall|i: int| r <= i < cs.len() ==> (#[trigger] cs[i]).address > address,
    ensures
        insertion_rank(cs, address) == r,
    decreases cs.len(),
{
    if cs.len() > 0 {
        if r == 0 {
            assert(cs[0].address > address);
        } else {
            assert(cs[0].address <= address);
            lemma_insertion_rank_from_split(cs.skip(1), address, r - 1);
        }
    }
}

/// The result of locating `address` in a chunk list: the index of the chunk
/// whose (possibly end-inclusive) range holds the address, or the sorted
/// position where a new chunk for `address` belongs.
///
/// With `inclusive_end` set, an address that sits exactly at the junction of
/// two chunks (the end of one is the start of the next) is resolved to the
/// chunk that ends there, so that new data extends it rather than being taken
/// for an overlap.
pub open spec fn spec_locate(cs: Seq<ChunkModel>, address: u64, inclusive_end: bool) -> Result<
    int,
    int,
> {
    let r = insertion_rank(cs, address);
    if r > 0 {
        let i = r - 1;
        if inclusive_end && address == cs[i].address && i > 0 && cs[i - 1].end() == address {
            Ok(i - 1)
        } else if address < cs[i].end() {
            Ok(i)
        } else if inclusive_end && address == cs[i].end() {
            Ok(i)
        } else {
            Err(r)
        }
    } else {
        Err(0)
    }
}

/// On a finished file's chunk list, locating without the inclusive end finds
/// exactly the chunk that contains the address, and fails exactly when no
/// chunk does.
pub proof fn lemma_locate_exclusive(cs: Seq<ChunkModel>, address: u64)
    requires
        chunks_wf(cs),
    ensures
        match spec_locate(cs, address, false) {
            Ok(i) => 0 <= i < cs.len() && cs[i].contains(address) && (forall|j: int|
                0 <= j < cs.len() && j != i ==> !(#[trigger] cs[j]).contains(address)),
            Err(j) => 0 <= j <= cs.len() && (forall|k: int|
                0 <= k < cs.len() ==> !(#[trigger] cs[k]).contains(address)),
        },
{
    lemma_chunks_wf_is_pre_merge(cs);
    let r = insertion_rank(cs, address);
    lemma_insertion_rank_split(cs, address);
    if r > 0 {
        let i = r - 1;
        if address < cs[i].end() {
            assert(cs[i].contains(address));
            assert forall|j: int| 0 <= j < cs.len() && j != i implies !(#[trigger] cs[j]).contains(
                address,
            ) by {
                if j < i {
                    lemma_end_below_later_start(cs, j, i);
                }
            }
        } else {
            assert forall|k: int| 0 <= k < cs.len() implies !(#[trigger] cs[k]).contains(
                address,
            ) by {
                if k < i {
                    lemma_end_below_later_start(cs, k, i);
                }
            }
        }
    }
}

/// On a sorted list, the insertion rank splits starts at most `address` from
/// starts above it.
pub proof fn lemma_insertion_rank_split(cs: Seq<ChunkModel>, address: u64)
    requires
        forall|i: int, j: int| 0 <= i < j < cs.len() ==> cs[i].address < cs[j].address,
    ensures
        0 <= insertion_rank(cs, address) <= cs.len(),
        forall|i: int|
            0 <= i < insertion_rank(cs, address) ==> (#[trigger] cs[i]).address <= address,
        forall|i: int|
            insertion_rank(cs, address) <= i < cs.len() ==> (#[trigger] cs[i]).address > address,
    decreases cs.len(),
{
    if cs.len() > 0 {
        assert forall|i: int, j: int|
            0 <= i < j < cs.skip(1).len() implies cs.skip(1)[i].address < cs.skip(
            1,
        )[j].address by {
            assert(cs.skip(1)[i] == cs[i + 1]);
            assert(cs.skip(1)[j] == cs[j + 1]);
        }
        lemma_insertion_rank_split(cs.skip(1), address);
        if cs[0].address > address {
            assert forall|i: int| 0 <= i < cs.len() implies (#[trigger] cs[i]).address > address by {
                if i > 0 {
                    assert(cs[0].address < cs[i].address);
                }
            }
        } else {
            let r1 = insertion_rank(cs.skip(1), address);
            assert forall|i: int| 0 <= i < 1 + r1 implies (#[trigger] cs[i]).address <= address by {
                if i > 0 {
                    assert(cs.skip(1)[i - 1] == cs[i]);
                }
            }
            assert forall|i: int| 1 + r1 <= i < cs.len() implies (#[trigger] cs[i]).address
                > address by {
                assert(cs.skip(1)[i - 1] == cs[i]);
            }
        }
    }
}

impl SRecordFile {
    /// Well-formedness of a finished file: the chunk store invariant.
    pub open spec fn wf(&self) -> bool {
        chunks_wf(self@.chunks)
    }

    /// Creates a new [`SRecordFile`] object with empty `data_chunks` and
    /// `None` `header_data` and `start_address`.
    pub fn new() -> (r: SRecordFile)
        ensures
            r@.header_data is None,
            r@.chunks == Seq::<ChunkModel>::empty(),
            r@.start_address is None,
            r.wf(),
    {
        let r = SRecordFile {
            header_data: None,
            data_chunks: Vec::<DataChunk>::new(),
            start_address: None,
        };
        proof {
            assert(r@.chunks =~= Seq::<ChunkModel>::empty());
        }
        r
    }

    /// The sorted position of `address` among the chunk starts: every chunk
    /// before it starts at or below `address`, every chunk from it on starts
    /// above it.
    fn find_insertion_rank(&self, address: u64) -> (r: usize)
        requires
            forall|i: int, j: int|
                0 <= i < j < self@.chunks.len() ==> self@.chunks[i].address
                    < self@.chunks[j].address,
        ensures
            r == insertion_rank(self@.chunks, address),
            r <= self@.chunks.len(),
            forall|i: int| 0 <= i < r ==> (#[trigger] self@.chunks[i]).address <= address,
            forall|i: int|
                r <= i < self@.chunks.len() ==> (#[trigger] self@.chunks[i]).address > address,
    {
        let cs = Ghost(self@.chunks);
        let mut lo: usize = 0;
        let mut hi: usize = self.data_chunks.len();
        while lo < hi
            invariant
                0 <= lo <= hi <= cs@.len(),
                cs@ == self@.chunks,
                cs@.len() == self.data_chunks@.len(),
                forall|i: int, j: int| 0 <= i < j < cs@.len() ==> cs@[i].address < cs@[j].address,
                forall|i: int| 0 <= i < lo ==> (#[trigger] cs@[i]).address <= address,
                forall|i: int| hi <= i < cs@.len() ==> (#[trigger] cs@[i]).address > address,
            decreases hi - lo,
        {
            let mid = lo + (hi - lo) / 2;
            if self.data_chunks[mid].address <= address {
                proof {
                    assert forall|i: int| 0 <= i < mid + 1 implies (#[trigger] cs@[i]).address
                        <= address by {
                        if i < mid {
                            assert(cs@[i].address < cs@[mid as int].address);
                        }
                    }
                }
                lo = mid + 1;
            } else {
                proof {
                    assert forall|i: int| mid <= i < cs@.len() implies (#[trigger] cs@[i]).address
                        > address by {
                        if i > mid {
                            assert(cs@[mid as int].address < cs@[i].address);
                        }
                    }
                }
                hi = mid;
            }
        }
        proof {
            lemma_insertion_rank_from_split(cs@, address, lo as int);
        }
        lo
    }

    /// Binary search for `address` in the sorted chunk list: `Ok` with the
    /// index of the chunk whose range (end-inclusive if `inclusive_end` is
    /// set) holds the address, else `Err` with the sorted insertion position
    /// for a new chunk at `address`.
    pub(crate) fn get_data_chunk_index(&self, address: u64, inclusive_end: bool) -> (r: Result<
        usize,
        usize,
    >)
        requires
            chunks_pre_merge(self@.chunks),
        ensures
            match r {
                Ok(i) => spec_locate(self@.chunks, address, inclusive_end) == Ok::<int, int>(
                    i as int,
                ) && i < self@.chunks.len(),
                Err(j) => spec_locate(self@.chunks, address, inclusive_end) == Err::<int, int>(
                    j as int,
                ) && j <= self@.chunks.len(),
            },
    {
        let rank = self.find_insertion_rank(address);
        if rank == 0 {
            return Err(0);
        }
        let i = rank - 1;
        let chunk_start = self.data_chunks[i].address;
        let chunk_end = self.data_chunks[i].end_address();
        if inclusive_end && address == chunk_start && i > 0 {
            let prev_end = self.data_chunks[i - 1].end_address();
            if prev_end == address {
                return Ok(i - 1);
            }
        }
        if address < chunk_end {
            Ok(i)
        } else if inclusive_end && address == chunk_end {
            Ok(i)
        } else {
            Err(rank)
        }
    }

    /// Returns a reference to the chunk that contains `address`, or `None`.
    pub(crate) fn get_data_chunk(&self, address: u64) -> (r: Option<&DataChunk>)
        requires
            self.wf(),
        ensures
            match r {
                Some(c) => exists|i: int|
                    0 <= i < self@.chunks.len() && c@ == self@.chunks[i]
                        && (#[trigger] self@.chunks[i]).contains(address),
                None => forall|i: int|
                    0 <= i < self@.chunks.len() ==> !(#[trigger] self@.chunks[i]).contains(
                        address,
                    ),
            },
    {
        proof {
            lemma_chunks_wf_is_pre_merge(self@.chunks);
            lemma_locate_exclusive(self@.chunks, address);
        }
        match self.get_data_chunk_index(address, false) {
            Ok(i) => Some(&self.data_chunks[i]),
            Err(_) => None,
        }
    }

    /// Returns a mutable reference to the chunk that contains `address`, or
    /// `None`; the chunk list layout (addresses and lengths) is unchanged
    /// either way.
    pub(crate) fn get_data_chunk_mut(&mut self, address: u64) -> (r: Option<&mut DataChunk>)
        requires
            old(self).wf(),
        ensures
            match r {
                Some(c) => {
                    &&& exists|i: int|
                        0 <= i < old(self)@.chunks.len() && c@ == old(self)@.chunks[i]
                            && (#[trigger] old(self)@.chunks[i]).contains(address)
                            && final(self)@.chunks == old(self)@.chunks.update(i, final(c)@)
                    &&& final(self)@.header_data == old(self)@.header_data
                    &&& final(self)@.start_address == old(self)@.start_address
                },
                None => *final(self) == *old(self) && (forall|i: int|
                    0 <= i < old(self)@.chunks.len() ==> !(
                    #[trigger] old(self)@.chunks[i]).contains(address)),
            },
    {
        proof {
            lemma_chunks_wf_is_pre_merge(self@.chunks);
            lemma_locate_exclusive(self@.chunks, address);
        }
        match self.get_data_chunk_index(address, false) {
            Ok(i) => Some(&mut self.data_chunks[i]),
            Err(_) => None,
        }
    }

    /// Returns a reference to the byte at `address`, or `None` if the file
    /// holds no data for that address.
    pub fn get(&self, address: u64) -> (r: Option<&u8>)
        requires
            self.wf(),
        ensures
            match r {
                Some(b) => exists|i: int|
                    0 <= i < self@.chunks.len() && (#[trigger] self@.chunks[i]).contains(address)
                        && *b == self@.chunks[i].byte_at(address),
                None => forall|i: int|
                    0 <= i < self@.chunks.len() ==> !(#[trigger] self@.chunks[i]).contains(
                        address,
                    ),
            },
    {
        match self.get_data_chunk(address) {
            Some(chunk) => chunk.get(address),
            None => None,
        }
    }

    /// Returns a mutable reference to the byte at `address`, or `None` if
    /// the file holds no data for that address.
    pub fn get_mut(&mut self, address: u64) -> (r: Option<&mut u8>)
        requires
            old(self).wf(),
        ensures
            final(self).wf(),
            final(self)@.header_data == old(self)@.header_data,
            final(self)@.start_address == old(self)@.start_address,
            match r {
                Some(b) => exists|i: int|
                    0 <= i < old(self)@.chunks.len() && (#[trigger] old(self)@.chunks[i]).contains(
                        address,
                    ) && *b == old(self)@.chunks[i].byte_at(address) && final(self)@.chunks == old(
                        self,
                    )@.chunks.update(
                        i,
                        ChunkModel {
                            address: old(self)@.chunks[i].address,
                            data: old(self)@.chunks[i].data.update(
                                address - old(self)@.chunks[i].address,
                                *final(b),
                            ),
                        },
                    ),
                None => *final(self) == *old(self) && (forall|i: int|
                    0 <= i < old(self)@.chunks.len() ==> !(
                    #[trigger] old(self)@.chunks[i]).contains(address)),
            },
    {
        match self.get_data_chunk_mut(address) {
            Some(chunk) => chunk.get_mut(address),
            None => None,
        }
    }

    /// Returns the data subslice for the address range `start..end`, or
    /// `None` unless the whole range lies within one contiguous run of data.
    pub fn get_range(&self, start: u64, end: u64) -> (r: Option<&[u8]>)
        requires
            self.wf(),
        ensures
            match r {
                Some(slice) => exists|i: int|
                    0 <= i < self@.chunks.len() && (#[trigger] self@.chunks[i]).contains(start)
                        && start <= end && end - self@.chunks[i].address
                        <= self@.chunks[i].data.len() && slice@ == self@.chunks[i].data.subrange(
                        start - self@.chunks[i].address,
                        end - self@.chunks[i].address,
                    ),
                None => forall|i: int|
                    0 <= i < self@.chunks.len() ==> !((#[trigger] self@.chunks[i]).contains(start)
                        && start <= end && end - self@.chunks[i].address
                        <= self@.chunks[i].data.len()),
            },
    {
        proof {
            lemma_chunks_wf_is_pre_merge(self@.chunks);
            lemma_locate_exclusive(self@.chunks, start);
        }
        match self.get_data_chunk(start) {
            Some(chunk) => {
                let r = chunk.get_range(start, end);
                proof {
                    if r is None {
                        assert forall|i: int|
                            0 <= i < self@.chunks.len() implies !((
                        #[trigger] self@.chunks[i]).contains(start) && start <= end && end
                            - self@.chunks[i].address <= self@.chunks[i].data.len()) by {
                            lemma_locate_exclusive(self@.chunks, start);
                        }
                    }
                }
                r
            },
            None => None,
        }
    }
}

/// ASCII code of the line feed character that separates lines.
pub const LINE_FEED: u8 = 0x0A;

/// ASCII code of the carriage return character.
pub const CARRIAGE_RETURN: u8 = 0x0D;

/// Index of the first line feed in `s`, or `s.len()` if there is none.
pub open spec fn find_newline(s: Seq<u8>) -> int
    decreases s.len(),
{
    if s.len() == 0 {
        0
    } else if s[0] == LINE_FEED {
        0
    } else {
        1 + find_newline(s.skip(1))
    }
}

/// The first line feed index is within the text.
pub proof fn lemma_find_newline_bounds(s: Seq<u8>)
    ensures
        0 <= find_newline(s) <= s.len(),
    decreases s.len(),
{
    if s.len() > 0 && s[0] != LINE_FEED {
        lemma_find_newline_bounds(s.skip(1));
    }
}

/// A scan that stops at the first line feed computes `find_newline`.
pub proof fn lemma_find_newline_from_scan(s: Seq<u8>, j: int)
    requires
        0 <= j <= s.len(),
        forall|i: int| 0 <= i < j ==> s[i] != LINE_FEED,
        j < s.len() ==> s[j] == LINE_FEED,
    ensures
        find_newline(s) == j,
    decreases s.len(),
{
    if s.len() > 0 {
        if j == 0 {
        } else {
            assert forall|i: int| 0 <= i < j - 1 implies s.skip(1)[i] != LINE_FEED by {
                assert(s.skip(1)[i] == s[i + 1]);
            }
            assert(j - 1 < s.skip(1).len() ==> s.skip(1)[j - 1] == LINE_FEED);
            lemma_find_newline_from_scan(s.skip(1), j - 1);
        }
    }
}

/// The lines of a text, split at line feeds. A carriage return directly
/// before a line feed is not part of the line, and a final line ending adds
/// no empty last line.
pub open spec fn spec_lines(s: Seq<u8>) -> Seq<Seq<u8>>
    decreases s.len(),
    via spec_lines_decreases
{
    if s.len() == 0 {
        Seq::empty()
    } else {
        let j = find_newline(s);
        if j >= s.len() {
            seq![s]
        } else {
            let line = if j > 0 && s[j - 1] == CARRIAGE_RETURN {
                s.subrange(0, j - 1)
            } else {
                s.subrange(0, j)
            };
            seq![line] + spec_lines(s.skip(j + 1))
        }
    }
}

#[via_fn]
proof fn spec_lines_decreases(s: Seq<u8>) {
    lemma_find_newline_bounds(s);
}

/// Spec-level state carried across the lines of a parse: the file built so
/// far and the number of data records seen.
pub struct ParseState {
    /// The file as built from the lines processed so far.
    pub file: FileModel,
    /// Number of data records seen so far.
    pub num_data_records: int,
}

/// The state a parse starts from: an empty file and a zero record count.
pub open spec fn spec_initial_state() -> ParseState {
    ParseState {
        file: FileModel {
            header_data: None,
            chunks: Seq::empty(),
            start_address: None,
        },
        num_data_records: 0,
    }
}

/// Spec-level dispatch of one parsed record into the parse state:
/// - a header record stores its data, a second one is an error;
/// - a data record extends the chunk ending exactly at its address, starts a
///   new chunk in sorted position otherwise, and is an overlap error if its
///   address falls inside a chunk; empty data records leave no chunk behind;
/// - a count record must match the number of data records seen so far;
/// - a start address record stores its address, a second one is an error.
pub open spec fn spec_apply_record(st: ParseState, r: RecordModel) -> Result<
    ParseState,
    ErrorType,
> {
    match r {
        RecordModel::Header { data } => match st.file.header_data {
            Some(_) => Err(ErrorType::MultipleHeaderRecords),
            None => Ok(
                ParseState {
                    file: FileModel { header_data: Some(data), ..st.file },
                    ..st
                },
            ),
        },
        RecordModel::Data { kind, address, data } => {
            let cs = st.file.chunks;
            match spec_locate(cs, address, true) {
                Ok(i) => if cs[i].end() != address {
                    Err(ErrorType::OverlappingData)
                } else {
                    Ok(
                        ParseState {
                            file: FileModel {
                                chunks: cs.update(
                                    i,
                                    ChunkModel {
                                        address: cs[i].address,
                                        data: cs[i].data + data,
                                    },
                                ),
                                ..st.file
                            },
                            num_data_records: st.num_data_records + 1,
                        },
                    )
                },
                Err(j) => if data.len() == 0 {
                    Ok(ParseState { num_data_records: st.num_data_records + 1, ..st })
                } else {
                    Ok(
                        ParseState {
                            file: FileModel {
                                chunks: cs.insert(j, ChunkModel { address, data }),
                                ..st.file
                            },
                            num_data_records: st.num_data_records + 1,
                        },
                    )
                },
            }
        },
        RecordModel::Count { kind, count } => if st.num_data_records != count {
            Err(ErrorType::CalculatedNumRecordsNotMatchingParsedNumRecords)
        } else {
            Ok(st)
        },
        RecordModel::Start { kind, address } => match st.file.start_address {
            Some(_) => Err(ErrorType::MultipleStartAddresses),
            None => Ok(
                ParseState {
                    file: FileModel { start_address: Some(address), ..st.file },
                    ..st
                },
            ),
        },
    }
}

/// Spec-level processing of a list of lines: parse each line and apply the
/// record to the state, stopping at the first error.
pub open spec fn spec_process_lines(lines: Seq<Seq<u8>>, st: ParseState) -> Result<
    ParseState,
    ErrorType,
>
    decreases lines.len(),
{
    if lines.len() == 0 {
        Ok(st)
    } else {
        match crate::record::spec_parse_record(lines[0]) {
            Err(e) => Err(e),
            Ok(r) => match spec_apply_record(st, r) {
                Err(e) => Err(e),
                Ok(st2) => spec_process_lines(lines.skip(1), st2),
            },
        }
    }
}

/// Spec-level merge pass: walking the sorted chunks left to right, a chunk
/// starting exactly at its predecessor's end is spliced onto it, a chunk
/// starting later stands alone, and a chunk starting earlier is an overlap
/// error.
pub open spec fn spec_merge(cs: Seq<ChunkModel>) -> Result<Seq<ChunkModel>, ErrorType>
    decreases cs.len(),
{
    if cs.len() <= 1 {
        Ok(cs)
    } else if cs[1].address > cs[0].end() {
        match spec_merge(cs.skip(1)) {
            Ok(rest) => Ok(seq![cs[0]] + rest),
            Err(e) => Err(e),
        }
    } else if cs[1].address == cs[0].end() {
        spec_merge(
            seq![ChunkModel { address: cs[0].address, data: cs[0].data + cs[1].data }] + cs.skip(
                2,
            ),
        )
    } else {
        Err(ErrorType::OverlappingData)
    }
}

/// Spec-level meaning of parsing a whole S-Record text: split into lines,
/// process every line, then run the merge pass over the collected chunks.
pub open spec fn spec_parse_file(s: Seq<u8>) -> Result<FileModel, ErrorType> {
    match spec_process_lines(spec_lines(s), spec_initial_state()) {
        Err(e) => Err(e),
        Ok(st) => match spec_merge(st.file.chunks) {
            Err(e) => Err(e),
            Ok(cs) => Ok(FileModel { chunks: cs, ..st.file }),
        },
    }
}

/// The merge result of `cs` seen from position `i`: the first `i` chunks are
/// final, the rest still merges.
pub open spec fn spec_merge_from(cs: Seq<ChunkModel>, i: int) -> Result<Seq<ChunkModel>, ErrorType> {
    match spec_merge(cs.skip(i)) {
        Ok(rest) => Ok(cs.take(i) + rest),
        Err(e) => Err(e),
    }
}

impl SRecordFile {
    /// Merges chunks that touch, left to right, and reports an overlap error
    /// if some chunk starts before its predecessor ends.
    #[verifier::rlimit(100)]
    #[verifier::spinoff_prover]
    pub(crate) fn merge_data_chunks(&mut self) -> (r: Result<(), SRecordParseError>)
        requires
            chunks_pre_merge(old(self)@.chunks),
        ensures
            final(self)@.header_data == old(self)@.header_data,
            final(self)@.start_address == old(self)@.start_address,
            match r {
                Ok(_) => spec_merge(old(self)@.chunks) == Ok::<Seq<ChunkModel>, ErrorType>(
                    final(self)@.chunks,
                ) && chunks_wf(final(self)@.chunks),
                Err(e) => spec_merge(old(self)@.chunks) == Err::<Seq<ChunkModel>, ErrorType>(
                    e.error_type,
                ),
            },
    {
        if self.data_chunks.len() == 0 {
            return Ok(());
        }
        proof {
            let cs = self@.chunks;
            assert(cs.skip(0) =~= cs);
            match spec_merge(cs) {
                Ok(rest) => {
                    assert(cs.take(0) + rest =~= rest);
                },
                Err(_) => {},
            }
        }
        let mut index: usize = 0;
        while index < self.data_chunks.len() - 1
            invariant
                self.data_chunks@.len() >= 1,
                0 <= index < self.data_chunks@.len(),
                chunks_pre_merge(self@.chunks),
                forall|k: int|
                    0 <= k < index ==> (#[trigger] self@.chunks[k]).end() < self@.chunks[k
                        + 1].address,
                spec_merge_from(self@.chunks, index as int) == spec_merge(old(self)@.chunks),
                self@.header_data == old(self)@.header_data,
                self@.start_address == old(self)@.start_address,
            decreases self.data_chunks@.len() - index,
        {
            let ghost cs = self@.chunks;
            let current_end = self.data_chunks[index].end_address();
            let next_index = index + 1;
            let next_start = self.data_chunks[next_index].address;
            proof {
                assert(cs.skip(index as int)[0] == cs[index as int]);
                assert(cs.skip(index as int)[1] == cs[index as int + 1]);
            }
            if next_start > current_end {
                proof {
                    assert(cs.skip(index as int).skip(1) =~= cs.skip(index as int + 1));
                    match spec_merge(cs.skip(index as int + 1)) {
                        Ok(rest) => {
                            assert(cs.take(index as int) + (seq![cs[index as int]] + rest)
                                =~= cs.take(index as int + 1) + rest);
                        },
                        Err(_) => {},
                    }
                }
                index = next_index;
            } else if next_start == current_end {
                let mut next_chunk = self.data_chunks.remove(next_index);
                let mut cur_chunk = self.data_chunks.remove(index);
                cur_chunk.data.append(&mut next_chunk.data);
                self.data_chunks.insert(index, cur_chunk);
                proof {
                    let merged = ChunkModel {
                        address: cs[index as int].address,
                        data: cs[index as int].data + cs[index as int + 1].data,
                    };
                    let cs2 = self@.chunks;
                    assert(cs2 =~= cs.take(index as int) + (seq![merged] + cs.skip(
                        index as int + 2,
                    )));
                    assert(cs2.take(index as int) =~= cs.take(index as int));
                    assert(cs2.skip(index as int) =~= seq![merged] + cs.skip(index as int + 2));
                    assert(cs.skip(index as int).skip(2) =~= cs.skip(index as int + 2));
                    assert(merged.end() == cs[index as int + 1].end());
                    assert(spec_merge(cs.skip(index as int)) == spec_merge(
                        seq![merged] + cs.skip(index as int + 2),
                    ));
                    assert forall|k: int| 0 <= k < cs2.len() implies (#[trigger] cs2[k]).address
                        == (if k <= index { cs[k].address } else { cs[k + 1].address })
                        && cs2[k].wf() by {
                        if k < index {
                            assert(cs2[k] == cs[k]);
                        } else if k == index {
                            assert(cs2[k] == merged);
                        } else {
                            assert(cs2[k] == cs[k + 1]);
                        }
                    }
                    assert forall|i2: int, j2: int|
                        0 <= i2 < j2 < cs2.len() implies cs2[i2].address < cs2[j2].address by {
                        let i3 = if i2 <= index { i2 } else { i2 + 1 };
                        let j3 = if j2 <= index { j2 } else { j2 + 1 };
                        assert(cs2[i2].address == cs[i3].address);
                        assert(cs2[j2].address == cs[j3].address);
                        assert(cs[i3].address < cs[j3].address);
                    }
                }
            } else {
                return Err(SRecordParseError { error_type: ErrorType::OverlappingData });
            }
        }
        proof {
            let cs = self@.chunks;
            assert(cs.skip(index as int).len() <= 1);
            assert(spec_merge(cs.skip(index as int)) == Ok::<Seq<ChunkModel>, ErrorType>(
                cs.skip(index as int),
            ));
            assert(cs.take(index as int) + cs.skip(index as int) =~= cs);
            assert forall|k: int| 0 <= k < cs.len() - 1 implies (#[trigger] cs[k]).end() < cs[k
                + 1].address by {}
        }
        Ok(())
    }
}

impl SRecordFile {
    /// Applies one parsed record to the file being built, returning the new
    /// data record count.
    #[verifier::rlimit(80)]
    #[verifier::spinoff_prover]
    fn apply_record(&mut self, record: Record, num_data_records: usize) -> (r: Result<
        usize,
        SRecordParseError,
    >)
        requires
            chunks_pre_merge(old(self)@.chunks),
            record@.wf(),
            num_data_records < usize::MAX,
        ensures
            match r {
                Ok(n) => spec_apply_record(
                    ParseState {
                        file: old(self)@,
                        num_data_records: num_data_records as int,
                    },
                    record@,
                ) == Ok::<ParseState, ErrorType>(
                    ParseState { file: final(self)@, num_data_records: n as int },
                ) && chunks_pre_merge(final(self)@.chunks) && n <= num_data_records + 1,
                Err(e) => spec_apply_record(
                    ParseState {
                        file: old(self)@,
                        num_data_records: num_data_records as int,
                    },
                    record@,
                ) == Err::<ParseState, ErrorType>(e.error_type) && *final(self) == *old(self),
            },
    {
        let ghost st = ParseState {
            file: self@,
            num_data_records: num_data_records as int,
        };
        match record {
            Record::S0Record(h) => {
                if self.header_data.is_some() {
                    Err(SRecordParseError { error_type: ErrorType::MultipleHeaderRecords })
                } else {
                    self.header_data = Some(h.data);
                    Ok(num_data_records)
                }
            },
            Record::S1Record(d) | Record::S2Record(d) | Record::S3Record(d) => {
                let ghost cs = st.file.chunks;
                let ghost ddata = d.data@;
                let ghost address = d.address;
                match self.get_data_chunk_index(d.address, true) {
                    Ok(i) => {
                        let chunk_end = self.data_chunks[i].end_address();
                        if chunk_end != d.address {
                            Err(SRecordParseError { error_type: ErrorType::OverlappingData })
                        } else {
                            let mut cur_chunk = self.data_chunks.remove(i);
                            let mut new_data = d.data;
                            cur_chunk.data.append(&mut new_data);
                            self.data_chunks.insert(i, cur_chunk);
                            proof {
                                let merged = ChunkModel {
                                    address: cs[i as int].address,
                                    data: cs[i as int].data + ddata,
                                };
                                assert(self@.chunks =~= cs.update(i as int, merged));
                                assert(merged.end() == address + ddata.len());
                                assert(merged.wf());
                                assert forall|i2: int, j2: int|
                                    0 <= i2 < j2 < self@.chunks.len() implies
                                    self@.chunks[i2].address < self@.chunks[j2].address by {
                                    assert(self@.chunks[i2].address == cs[i2].address);
                                    assert(self@.chunks[j2].address == cs[j2].address);
                                }
                                assert(st.file.header_data == self@.header_data);
                                assert(st.file.start_address == self@.start_address);
                            }
                            Ok(num_data_records + 1)
                        }
                    },
                    Err(j) => {
                        if d.data.len() == 0 {
                            Ok(num_data_records + 1)
                        } else {
                            proof {
                                lemma_insertion_rank_split(cs, address);
                            }
                            self.data_chunks.insert(
                                j,
                                DataChunk { address: d.address, data: d.data },
                            );
                            proof {
                                let fresh = ChunkModel { address, data: ddata };
                                assert(self@.chunks =~= cs.insert(j as int, fresh));
                                assert(fresh.wf());
                                assert forall|k: int|
                                    0 <= k < j implies (#[trigger] cs[k]).address < address by {
                                    if k == j - 1 {
                                        assert(cs[k].address <= address);
                                        assert(cs[k].wf());
                                        if cs[k].address == address {
                                            assert(address < cs[k].end());
                                        }
                                    } else {
                                        assert(cs[k].address < cs[j - 1].address);
                                        assert(cs[j - 1].address <= address);
                                    }
                                }
                                assert forall|i2: int, j2: int|
                                    0 <= i2 < j2 < self@.chunks.len() implies
                                    self@.chunks[i2].address < self@.chunks[j2].address by {
                                    let i3 = if i2 < j { i2 } else { i2 - 1 };
                                    let j3 = if j2 < j { j2 } else { j2 - 1 };
                                    if i2 != j && j2 != j {
                                        assert(self@.chunks[i2] == cs[i3]);
                                        assert(self@.chunks[j2] == cs[j3]);
                                    } else if i2 == j {
                                        assert(self@.chunks[i2] == fresh);
                                        assert(self@.chunks[j2] == cs[j3]);
                                        assert(cs[j3].address > address);
                                    } else {
                                        assert(self@.chunks[i2] == cs[i3]);
                                        assert(self@.chunks[j2] == fresh);
                                    }
                                }
                            }
                            Ok(num_data_records + 1)
                        }
                    },
                }
            },
            Record::S5Record(c) | Record::S6Record(c) => {
                if num_data_records != c.record_count {
                    Err(
                        SRecordParseError {
                            error_type: ErrorType::CalculatedNumRecordsNotMatchingParsedNumRecords,
                        },
                    )
                } else {
                    Ok(num_data_records)
                }
            },
            Record::S7Record(sa) | Record::S8Record(sa) | Record::S9Record(sa) => {
                if self.start_address.is_some() {
                    Err(SRecordParseError { error_type: ErrorType::MultipleStartAddresses })
                } else {
                    self.start_address = Some(sa.start_address);
                    Ok(num_data_records)
                }
            },
        }
    }

    /// Parses an S-Record text and builds the [`SRecordFile`] holding the
    /// data in it: every line must parse, header and start address may each
    /// occur at most once, a count record must match the number of data
    /// records seen so far, and no two records may supply data for the same
    /// address. The first fault aborts the parse with its error.
    #[verifier::rlimit(80)]
    #[verifier::spinoff_prover]
    pub fn from_str(s: &str) -> (r: Result<SRecordFile, SRecordParseError>)
        ensures
            match r {
                Ok(f) => spec_parse_file(s.spec_bytes()) == Ok::<FileModel, ErrorType>(f@)
                    && f.wf(),
                Err(e) => spec_parse_file(s.spec_bytes()) == Err::<FileModel, ErrorType>(
                    e.error_type,
                ),
            },
    {
        let bytes = s.as_bytes();
        let total = bytes.len();
        let mut file = SRecordFile::new();
        let mut num_data_records: usize = 0;
        let mut pos: usize = 0;
        proof {
            assert(file@ =~~= spec_initial_state().file);
            assert(bytes@.skip(0) =~= bytes@);
        }
        while pos < total
            invariant
                pos <= total == bytes@.len(),
                bytes@ == s.spec_bytes(),
                num_data_records <= pos,
                chunks_pre_merge(file@.chunks),
                spec_process_lines(
                    spec_lines(bytes@.skip(pos as int)),
                    ParseState { file: file@, num_data_records: num_data_records as int },
                ) == spec_process_lines(spec_lines(bytes@), spec_initial_state()),
            decreases total - pos,
        {
            let ghost st = ParseState {
                file: file@,
                num_data_records: num_data_records as int,
            };
            let ghost rest = bytes@.skip(pos as int);
            let mut j: usize = pos;
            while j < total && bytes[j] != LINE_FEED
                invariant
                    pos <= j <= total == bytes@.len(),
                    forall|i: int| pos <= i < j ==> bytes@[i] != LINE_FEED,
                decreases total - j,
            {
                j = j + 1;
            }
            let line_end = if j < total && j > pos && bytes[j - 1] == CARRIAGE_RETURN {
                j - 1
            } else {
                j
            };
            let line = vstd::slice::slice_subrange(bytes, pos, line_end);
            let ghost next_pos: int = if j < total {
                j + 1
            } else {
                total as int
            };
            proof {
                assert forall|i: int| 0 <= i < j - pos implies rest[i] != LINE_FEED by {
                    assert(rest[i] == bytes@[pos + i]);
                }
                if j < total {
                    assert(rest[j - pos as int] == bytes@[j as int]);
                }
                lemma_find_newline_from_scan(rest, j - pos as int);
                if j < total {
                    assert(rest.skip(j - pos as int + 1) =~= bytes@.skip(next_pos as int));
                    if j > pos && bytes@[j - 1] == CARRIAGE_RETURN {
                        assert(rest.subrange(0, j - pos as int - 1) =~= line@);
                    } else {
                        assert(rest.subrange(0, j - pos as int) =~= line@);
                    }
                    assert(spec_lines(rest) == seq![line@] + spec_lines(
                        bytes@.skip(next_pos as int),
                    ));
                } else {
                    assert(rest.subrange(0, j - pos as int) =~= rest);
                    assert(line@ == rest);
                    assert(spec_lines(rest) == seq![line@]);
                    assert(bytes@.skip(next_pos as int) =~= Seq::<u8>::empty());
                    assert(spec_lines(bytes@.skip(next_pos as int)) =~= Seq::<Seq<u8>>::empty());
                    assert(spec_lines(rest) =~= seq![line@] + spec_lines(
                        bytes@.skip(next_pos as int),
                    ));
                }
            }
            let record = match crate::record::record_from_bytes(line) {
                Ok(rec) => rec,
                Err(e) => {
                    proof {
                        assert(spec_lines(rest)[0] == line@);
                        assert(spec_process_lines(spec_lines(rest), st) == Err::<
                            ParseState,
                            ErrorType,
                        >(e.error_type));
                    }
                    return Err(e);
                },
            };
            let new_num = match file.apply_record(record, num_data_records) {
                Ok(n) => n,
                Err(e) => {
                    proof {
                        assert(spec_lines(rest)[0] == line@);
                        assert(spec_process_lines(spec_lines(rest), st) == Err::<
                            ParseState,
                            ErrorType,
                        >(e.error_type));
                    }
                    return Err(e);
                },
            };
            proof {
                assert(spec_lines(rest)[0] == line@);
                assert(spec_lines(rest).skip(1) =~= spec_lines(bytes@.skip(next_pos as int)));
            }
            num_data_records = new_num;
            pos = if j < total {
                j + 1
            } else {
                total
            };
        }
        proof {
            assert(bytes@.skip(total as int) =~= Seq::<u8>::empty());
            assert(spec_lines(Seq::<u8>::empty()) =~= Seq::<Seq<u8>>::empty());
        }
        match file.merge_data_chunks() {
            Ok(_) => {
                proof {
                    assert(spec_parse_file(s.spec_bytes()) == Ok::<FileModel, ErrorType>(file@));
                }
                Ok(file)
            },
            Err(e) => Err(e),
        }
    }
}

/// The stages a file record iterator passes through, in order.
#[derive(Clone, Copy, Debug, PartialEq, Eq)]
pub enum SRecordFileIteratorStage {
    /// The header record is still to be handed out.
    Header,
    /// Data records are being handed out.
    Data,
    /// The count record is still to be handed out.
    Count,
    /// The start address record is still to be handed out.
    StartAddress,
    /// All records have been handed out.
    Finished,
}

/// Cursor over the records of an [`SRecordFile`]: one header record if there
/// is header data, then the data of every chunk cut into records of at most
/// `data_record_size` bytes, then a count record if the number of data
/// records fits 16 or 24 bits, then the start address record if one is set.
pub struct SRecordFileIterator {
    /// The stage the cursor is in.
    pub stage: SRecordFileIteratorStage,
    /// Index of the chunk whose data is being handed out.
    pub data_chunk_index: usize,
    /// Offset in that chunk's data where the next record starts.
    pub offset: usize,
    /// Largest number of data bytes per record.
    pub data_record_size: usize,
    /// Number of data records handed out so far.
    pub num_data_records: usize,
}

/// The windows of at most `size` bytes that remain from chunk `index` on,
/// starting at data offset `offset` of that chunk.
pub open spec fn windows_from(
    cs: Seq<ChunkModel>,
    size: nat,
    index: int,
    offset: nat,
) -> Seq<ChunkModel>
    decreases cs.len() - index,
{
    if index < 0 || index >= cs.len() {
        Seq::empty()
    } else {
        crate::data_chunk::spec_windows(cs[index], size, offset) + windows_from(
            cs,
            size,
            index + 1,
            0,
        )
    }
}

/// The data records that serialize a list of windows: an S3 record per
/// window.
pub open spec fn windows_to_records(ws: Seq<ChunkModel>) -> Seq<RecordModel> {
    ws.map_values(
        |w: ChunkModel| RecordModel::Data {
            kind: crate::record_type::RecordType::S3,
            address: w.address,
            data: w.data,
        },
    )
}

/// Mapping windows to records distributes over concatenation.
pub proof fn lemma_windows_to_records_add(a: Seq<ChunkModel>, b: Seq<ChunkModel>)
    ensures
        windows_to_records(a + b) =~= windows_to_records(a) + windows_to_records(b),
{
}

/// A file can be serialized with records of `size` data bytes when the size
/// fits an S3 record, the header data fits an S0 record, every chunk lies
/// within the 32-bit address space of S3 records, and so does the start
/// address.
pub open spec fn file_serializable(fm: FileModel, size: usize) -> bool {
    &&& 1 <= size <= 250
    &&& match fm.header_data {
        Some(d) => d.len() <= 252,
        None => true,
    }
    &&& forall|i: int| 0 <= i < fm.chunks.len() ==> (#[trigger] fm.chunks[i]).end() <= 0x100000000
    &&& match fm.start_address {
        Some(a) => a < 0x100000000,
        None => true,
    }
}

impl SRecordFileIterator {
    /// The data records this cursor still has to hand out, as windows.
    pub open spec fn remaining_windows(self, fm: FileModel) -> Seq<ChunkModel> {
        if self.stage is Header {
            windows_from(fm.chunks, self.data_record_size as nat, 0, 0)
        } else if self.stage is Data {
            windows_from(
                fm.chunks,
                self.data_record_size as nat,
                self.data_chunk_index as int,
                self.offset as nat,
            )
        } else {
            Seq::empty()
        }
    }

    /// All records this cursor still has to hand out.
    pub open spec fn remaining_records(self, fm: FileModel) -> Seq<RecordModel> {
        let header_part: Seq<RecordModel> = if self.stage is Header {
            match fm.header_data {
                Some(d) => seq![RecordModel::Header { data: d }],
                None => Seq::empty(),
            }
        } else {
            Seq::empty()
        };
        let data_part = windows_to_records(self.remaining_windows(fm));
        let total = self.num_data_records + data_part.len();
        let count_part: Seq<RecordModel> = if self.stage is Header || self.stage is Data
            || self.stage is Count {
            if total < 0x10000 {
                seq![
                    RecordModel::Count { kind: crate::record_type::RecordType::S5, count: total },
                ]
            } else if total < 0x1000000 {
                seq![
                    RecordModel::Count { kind: crate::record_type::RecordType::S6, count: total },
                ]
            } else {
                Seq::empty()
            }
        } else {
            Seq::empty()
        };
        let start_part: Seq<RecordModel> = if !(self.stage is Finished) {
            match fm.start_address {
                Some(a) => seq![
                    RecordModel::Start {
                        kind: crate::record_type::RecordType::S7,
                        address: a,
                    },
                ],
                None => Seq::empty(),
            }
        } else {
            Seq::empty()
        };
        header_part + data_part + count_part + start_part
    }

    /// The cursor is consistent with the file it walks.
    pub open spec fn valid_for(self, fm: FileModel) -> bool {
        &&& self.data_record_size >= 1
        &&& (self.stage is Header ==> self.data_chunk_index == 0 && self.offset == 0
            && self.num_data_records == 0)
        &&& (self.stage is Data ==> self.data_chunk_index <= fm.chunks.len() && (
        self.data_chunk_index < fm.chunks.len() ==> self.offset <= fm.chunks[
            self.data_chunk_index as int
        ].data.len()))
        &&& self.num_data_records + self.remaining_windows(fm).len() <= usize::MAX
    }
}

/// The full record sequence that serializes a file with records of at most
/// `size` data bytes.
pub open spec fn spec_file_records(fm: FileModel, size: usize) -> Seq<RecordModel> {
    SRecordFileIterator {
        stage: SRecordFileIteratorStage::Header,
        data_chunk_index: 0,
        offset: 0,
        data_record_size: size,
        num_data_records: 0,
    }.remaining_records(fm)
}

impl SRecordFile {
    /// Iterate over the records that serialize this file.
    ///
    /// First an S0 record if there is header data; then S3 records walking
    /// each chunk in address order, each carrying at most `data_record_size`
    /// bytes; then an S5 record if the number of data records fits in 16
    /// bits, an S6 record if it fits in 24 bits, and no count record
    /// otherwise; finally an S7 record if a start address is set.
    pub fn iter_records(&self, data_record_size: usize) -> (it: SRecordFileIterator)
        requires
            self.wf(),
            file_serializable(self@, data_record_size),
            windows_from(self@.chunks, data_record_size as nat, 0, 0).len() <= usize::MAX,
        ensures
            it.valid_for(self@),
            it.remaining_records(self@) == spec_file_records(self@, data_record_size),
    {
        SRecordFileIterator {
            stage: SRecordFileIteratorStage::Header,
            data_chunk_index: 0,
            offset: 0,
            data_record_size,
            num_data_records: 0,
        }
    }
}

impl SRecordFileIterator {
    /// Leaves the header stage for the data stage, handing out the header
    /// record if the file has one.
    #[verifier::spinoff_prover]
    fn step_header(&mut self, file: &SRecordFile) -> (r: Option<Record>)
        requires
            old(self).stage is Header,
            old(self).valid_for(file@),
        ensures
            final(self).stage is Data,
            final(self).valid_for(file@),
            final(self).data_record_size == old(self).data_record_size,
            match r {
                Some(rec) => old(self).remaining_records(file@) == seq![rec@]
                    + final(self).remaining_records(file@) && file@.header_data is Some && rec@
                    == (RecordModel::Header { data: file@.header_data->Some_0 }),
                None => old(self).remaining_records(file@) == final(self).remaining_records(
                    file@,
                ),
            },
    {
        let ghost fm = file@;
        self.stage = SRecordFileIteratorStage::Data;
        match &file.header_data {
            Some(h) => {
                let rec = Record::S0Record(crate::record::HeaderRecord { data: h.clone() });
                proof {
                    assert(rec@ == RecordModel::Header { data: h@ });
                    assert(old(self).remaining_records(fm) =~= seq![rec@]
                        + self.remaining_records(fm));
                }
                Some(rec)
            },
            None => {
                proof {
                    assert(old(self).remaining_records(fm) =~= self.remaining_records(fm));
                }
                None
            },
        }
    }

    /// Hands out the next data record, or leaves the data stage for the
    /// count stage when no data is left.
    #[verifier::rlimit(100)]
    #[verifier::spinoff_prover]
    fn step_data(&mut self, file: &SRecordFile) -> (r: Option<Record>)
        requires
            file.wf(),
            file_serializable(file@, old(self).data_record_size),
            old(self).stage is Data,
            old(self).valid_for(file@),
        ensures
            final(self).valid_for(file@),
            final(self).data_record_size == old(self).data_record_size,
            match r {
                Some(rec) => final(self).stage is Data && old(self).remaining_records(file@)
                    == seq![rec@] + final(self).remaining_records(file@) && rec@.wf(),
                None => final(self).stage is Count
                    && old(self).remaining_records(file@) == final(self).remaining_records(file@),
            },
    {
        let ghost fm = file@;
        let ghost it_data = *self;
        if self.data_chunk_index < file.data_chunks.len() {
            let chunk_len = file.data_chunks[self.data_chunk_index].data.len();
            if self.offset >= chunk_len {
                proof {
                    assert(crate::data_chunk::spec_windows(
                        fm.chunks[self.data_chunk_index as int],
                        self.data_record_size as nat,
                        self.offset as nat,
                    ) =~= Seq::<ChunkModel>::empty());
                }
                self.data_chunk_index = self.data_chunk_index + 1;
                self.offset = 0;
                proof {
                    assert(it_data.remaining_windows(fm) =~= self.remaining_windows(fm));
                    assert(it_data.remaining_records(fm) =~= self.remaining_records(fm));
                }
            }
        }
        if self.data_chunk_index < file.data_chunks.len() {
            let ghost it0 = *self;
            let chunk = &file.data_chunks[self.data_chunk_index];
            let chunk_len = chunk.data.len();
            let remaining = chunk_len - self.offset;
            let k = if self.data_record_size <= remaining {
                self.data_record_size
            } else {
                remaining
            };
            let address = chunk.address + (self.offset as u64);
            let data = vstd::slice::slice_to_vec(
                vstd::slice::slice_subrange(chunk.data.as_slice(), self.offset, self.offset + k),
            );
            let rec = Record::S3Record(crate::record::DataRecord { address, data });
            proof {
                let cm = fm.chunks[self.data_chunk_index as int];
                let w = ChunkModel {
                    address: (cm.address + self.offset) as u64,
                    data: cm.data.subrange(self.offset as int, self.offset + k),
                };
                assert(crate::data_chunk::spec_windows(
                    cm,
                    self.data_record_size as nat,
                    self.offset as nat,
                ) == seq![w] + crate::data_chunk::spec_windows(
                    cm,
                    self.data_record_size as nat,
                    (self.offset + k) as nat,
                ));
                assert(rec@ == RecordModel::Data {
                    kind: crate::record_type::RecordType::S3,
                    address: w.address,
                    data: w.data,
                });
            }
            self.offset = self.offset + k;
            self.num_data_records = self.num_data_records + 1;
            proof {
                let cm = fm.chunks[it0.data_chunk_index as int];
                let w = ChunkModel {
                    address: (cm.address + it0.offset) as u64,
                    data: cm.data.subrange(it0.offset as int, it0.offset + k),
                };
                assert(it0.remaining_windows(fm) =~= seq![w] + self.remaining_windows(fm));
                lemma_windows_to_records_add(seq![w], self.remaining_windows(fm));
                assert(windows_to_records(seq![w]) =~= seq![rec@]);
                assert(it0.remaining_records(fm) =~= seq![rec@] + self.remaining_records(fm));
                assert(rec@.wf()) by {
                    assert(cm.end() <= 0x100000000);
                }
            }
            return Some(rec);
        }
        self.stage = SRecordFileIteratorStage::Count;
        proof {
            assert(it_data.remaining_windows(fm) =~= Seq::<ChunkModel>::empty());
            assert(it_data.remaining_records(fm) =~= self.remaining_records(fm));
        }
        None
    }

    /// Leaves the count stage for the start address stage, handing out the
    /// count record if the count fits 16 or 24 bits.
    #[verifier::spinoff_prover]
    fn step_count(&mut self, file: &SRecordFile) -> (r: Option<Record>)
        requires
            old(self).stage is Count,
            old(self).valid_for(file@),
        ensures
            final(self).stage is StartAddress,
            final(self).valid_for(file@),
            final(self).data_record_size == old(self).data_record_size,
            match r {
                Some(rec) => old(self).remaining_records(file@) == seq![rec@]
                    + final(self).remaining_records(file@) && rec@.wf(),
                None => old(self).remaining_records(file@) == final(self).remaining_records(
                    file@,
                ),
            },
    {
        let ghost fm = file@;
        let ghost it0 = *self;
        self.stage = SRecordFileIteratorStage::StartAddress;
        if self.num_data_records < 65536 {
            let rec = Record::S5Record(
                crate::record::CountRecord { record_count: self.num_data_records },
            );
            proof {
                assert(it0.remaining_records(fm) =~= seq![rec@] + self.remaining_records(fm));
            }
            Some(rec)
        } else if self.num_data_records < 16777216 {
            let rec = Record::S6Record(
                crate::record::CountRecord { record_count: self.num_data_records },
            );
            proof {
                assert(it0.remaining_records(fm) =~= seq![rec@] + self.remaining_records(fm));
            }
            Some(rec)
        } else {
            proof {
                assert(it0.remaining_records(fm) =~= self.remaining_records(fm));
            }
            None
        }
    }

    /// Leaves the start address stage, handing out the start address record
    /// if one is set; the cursor is finished afterwards.
    #[verifier::spinoff_prover]
    fn step_start_address(&mut self, file: &SRecordFile) -> (r: Option<Record>)
        requires
            file_serializable(file@, old(self).data_record_size),
            old(self).stage is StartAddress,
            old(self).valid_for(file@),
        ensures
            final(self).stage is Finished,
            final(self).valid_for(file@),
            final(self).data_record_size == old(self).data_record_size,
            final(self).remaining_records(file@) == Seq::<RecordModel>::empty(),
            match r {
                Some(rec) => old(self).remaining_records(file@) == seq![rec@] && rec@.wf(),
                None => old(self).remaining_records(file@) == Seq::<RecordModel>::empty(),
            },
    {
        let ghost fm = file@;
        let ghost it0 = *self;
        self.stage = SRecordFileIteratorStage::Finished;
        proof {
            assert(self.remaining_records(fm) =~= Seq::<RecordModel>::empty());
        }
        match file.start_address {
            Some(a) => {
                let rec = Record::S7Record(crate::record::StartAddressRecord { start_address: a });
                proof {
                    assert(it0.remaining_records(fm) =~= seq![rec@]);
                }
                Some(rec)
            },
            None => {
                proof {
                    assert(it0.remaining_records(fm) =~= Seq::<RecordModel>::empty());
                }
                None
            },
        }
    }

    /// Hands out the next record of the file's serialization, or `None` when
    /// all records are done.
    #[verifier::spinoff_prover]
    pub fn next(&mut self, file: &SRecordFile) -> (r: Option<Record>)
        requires
            file.wf(),
            file_serializable(file@, old(self).data_record_size),
            old(self).valid_for(file@),
        ensures
            final(self).valid_for(file@),
            final(self).data_record_size == old(self).data_record_size,
            match r {
                Some(rec) => old(self).remaining_records(file@) == seq![rec@]
                    + final(self).remaining_records(file@) && rec@.wf(),
                None => old(self).remaining_records(file@) == Seq::<RecordModel>::empty()
                    && final(self).remaining_records(file@) == Seq::<RecordModel>::empty(),
            },
    {
        if matches!(self.stage, SRecordFileIteratorStage::Header) {
            match self.step_header(file) {
                Some(rec) => {
                    proof {
                        assert(rec@.wf());
                    }
                    return Some(rec);
                },
                None => {},
            }
        }
        if matches!(self.stage, SRecordFileIteratorStage::Data) {
            match self.step_data(file) {
                Some(rec) => {
                    return Some(rec);
                },
                None => {},
            }
        }
        if matches!(self.stage, SRecordFileIteratorStage::Count) {
            match self.step_count(file) {
                Some(rec) => {
                    return Some(rec);
                },
                None => {},
            }
        }
        if matches!(self.stage, SRecordFileIteratorStage::StartAddress) {
            match self.step_start_address(file) {
                Some(rec) => {
                    proof {
                        assert(seq![rec@] + self.remaining_records(file@) =~= seq![rec@]);
                    }
                    return Some(rec);
                },
                None => {},
            }
        }
        proof {
            assert(self.remaining_records(file@) =~= Seq::<RecordModel>::empty());
        }
        None
    }
}

/// Inserting a chunk into an address-sorted chunk list, after any chunk
/// with the same or a lower start address.
pub open spec fn insert_sorted(c: ChunkModel, s: Seq<ChunkModel>) -> Seq<ChunkModel>
    decreases s.len(),
{
    if s.len() == 0 {
        seq![c]
    } else if s.last().address <= c.address {
        s.push(c)
    } else {
        insert_sorted(c, s.drop_last()).push(s.last())
    }
}

/// Stable insertion sort of chunks by start address.
pub open spec fn sort_chunks(s: Seq<ChunkModel>) -> Seq<ChunkModel>
    decreases s.len(),
{
    if s.len() == 0 {
        Seq::empty()
    } else {
        insert_sorted(s.last(), sort_chunks(s.drop_last()))
    }
}

/// Splicing together chunks that touch, left to right: a chunk starting
/// exactly at its predecessor's end is appended to it, any other chunk
/// stands alone.
pub open spec fn merge_adjacent(s: Seq<ChunkModel>) -> Seq<ChunkModel>
    decreases s.len(),
{
    if s.len() <= 1 {
        s
    } else if s[1].address == s[0].end() {
        merge_adjacent(
            seq![ChunkModel { address: s[0].address, data: s[0].data + s[1].data }] + s.skip(2),
        )
    } else {
        seq![s[0]] + merge_adjacent(s.skip(1))
    }
}

/// Removing the front element commutes with taking chunk views.
proof fn lemma_view_of_remove0(before: Seq<DataChunk>)
    requires
        before.len() > 0,
    ensures
        before.remove(0).map_values(|c: DataChunk| c@) =~= before.map_values(
            |c: DataChunk| c@,
        ).skip(1),
{
    let a = before.remove(0).map_values(|c: DataChunk| c@);
    let b = before.map_values(|c: DataChunk| c@);
    assert forall|i: int| 0 <= i < a.len() implies #[trigger] a[i] == b.skip(1)[i] by {
        assert(before.remove(0)[i] == before[i + 1]);
        assert(b[i + 1] == before[i + 1]@);
    }
    assert(a =~= b.skip(1));
}

/// Inserting at the split position between keys at most `c.address` and
/// keys above it is what `insert_sorted` does.
proof fn lemma_insert_sorted_at(c: ChunkModel, s: Seq<ChunkModel>, j: int)
    requires
        0 <= j <= s.len(),
        j > 0 ==> s[j - 1].address <= c.address,
        forall|i: int| j <= i < s.len() ==> (#[trigger] s[i]).address > c.address,
    ensures
        insert_sorted(c, s) =~= s.subrange(0, j) + seq![c] + s.subrange(j, s.len() as int),
    decreases s.len(),
{
    if s.len() == 0 {
    } else if j == s.len() {
        assert(s.subrange(0, j) =~= s);
        assert(s.subrange(j, s.len() as int) =~= Seq::<ChunkModel>::empty());
        assert(insert_sorted(c, s) == s.push(c));
        assert(s.push(c) =~= s + seq![c] + Seq::<ChunkModel>::empty());
    } else {
        assert(s[s.len() - 1].address > c.address);
        assert(s.drop_last()[j - 1] == s[j - 1] || j == 0);
        assert forall|i: int| j <= i < s.drop_last().len() implies (
        #[trigger] s.drop_last()[i]).address > c.address by {
            assert(s.drop_last()[i] == s[i]);
        }
        lemma_insert_sorted_at(c, s.drop_last(), j);
        assert(insert_sorted(c, s) == insert_sorted(c, s.drop_last()).push(s.last()));
        assert(s.drop_last().subrange(0, j) =~= s.subrange(0, j));
        assert(s.drop_last().subrange(j, s.drop_last().len() as int).push(s.last()) =~= s.subrange(
            j,
            s.len() as int,
        ));
    }
}

impl SRecordFile {
    /// Sorts the data chunks by ascending address, keeping the order of
    /// chunks that share an address, and splices together chunks that touch.
    #[verifier::rlimit(100)]
    #[verifier::spinoff_prover]
    pub fn sort_data(&mut self)
        ensures
            final(self)@.chunks == merge_adjacent(sort_chunks(old(self)@.chunks)),
            final(self)@.header_data == old(self)@.header_data,
            final(self)@.start_address == old(self)@.start_address,
    {
        let ghost orig = self@.chunks;
        let mut sorted: Vec<DataChunk> = Vec::new();
        let ghost mut processed: int = 0;
        proof {
            assert(orig.take(0) =~= Seq::<ChunkModel>::empty());
            assert(sorted@.map_values(|c: DataChunk| c@) =~= sort_chunks(orig.take(0)));
        }
        while self.data_chunks.len() > 0
            invariant
                0 <= processed <= orig.len(),
                processed + self.data_chunks@.len() == orig.len(),
                self.data_chunks@.map_values(|c: DataChunk| c@) =~= orig.skip(processed),
                sorted@.map_values(|c: DataChunk| c@) =~= sort_chunks(orig.take(processed)),
                forall|i: int, j: int|
                    0 <= i < j < sorted@.len() ==> sorted@[i].address <= sorted@[j].address,
                self@.header_data == old(self)@.header_data,
                self@.start_address == old(self)@.start_address,
            decreases self.data_chunks@.len(),
        {
            let ghost sorted_before = sorted@.map_values(|c: DataChunk| c@);
            let ghost before_remove = self.data_chunks@;
            let c = self.data_chunks.remove(0);
            proof {
                assert(c@ == orig.skip(processed)[0]);
                assert(orig.skip(processed)[0] == orig[processed]);
                lemma_view_of_remove0(before_remove);
                assert(self.data_chunks@.map_values(|c2: DataChunk| c2@) =~= orig.skip(
                    processed,
                ).skip(1));
                assert(orig.skip(processed).skip(1) =~= orig.skip(processed + 1));
            }
            let mut j: usize = 0;
            while j < sorted.len() && sorted[j].address <= c.address
                invariant
                    0 <= j <= sorted@.len(),
                    forall|i: int| 0 <= i < j ==> (#[trigger] sorted@[i]).address <= c.address,
                decreases sorted@.len() - j,
            {
                j = j + 1;
            }
            proof {
                assert forall|i: int| j <= i < sorted_before.len() implies (
                #[trigger] sorted_before[i]).address > c@.address by {
                    if i > j {
                        assert(sorted@[j as int].address <= sorted@[i].address);
                    }
                }
            }
            sorted.insert(j, c);
            proof {
                lemma_insert_sorted_at(c@, sorted_before, j as int);
                assert(sorted@.map_values(|c2: DataChunk| c2@) =~= sorted_before.subrange(
                    0,
                    j as int,
                ) + seq![c@] + sorted_before.subrange(j as int, sorted_before.len() as int));
                assert(orig.take(processed + 1).drop_last() =~= orig.take(processed));
                assert(orig.take(processed + 1).last() == orig[processed]);
                assert(sorted@.map_values(|c2: DataChunk| c2@) =~= insert_sorted(
                    c@,
                    sort_chunks(orig.take(processed)),
                ));
                assert forall|i2: int, j2: int|
                    0 <= i2 < j2 < sorted@.len() implies sorted@[i2].address
                    <= sorted@[j2].address by {
                    let v = sorted@.map_values(|c2: DataChunk| c2@);
                    assert(v[i2] == sorted@[i2]@ && v[j2] == sorted@[j2]@);
                }
                processed = processed + 1;
                assert(self.data_chunks@.map_values(|c2: DataChunk| c2@) =~= orig.skip(processed));
            }
        }
        proof {
            assert(orig.take(processed) =~= orig);
        }
        if sorted.len() == 0 {
            self.data_chunks = sorted;
            proof {
                assert(merge_adjacent(sort_chunks(orig)) =~= sort_chunks(orig));
            }
            return ;
        }
        let mut merged_chunks: Vec<DataChunk> = Vec::new();
        let ghost before_first = sorted@;
        let first = sorted.remove(0);
        merged_chunks.push(first);
        proof {
            let sv = sort_chunks(orig);
            lemma_view_of_remove0(before_first);
            assert(sorted@.map_values(|c: DataChunk| c@) =~= sv.skip(1));
            assert(first@ == sv[0]);
            assert(merged_chunks@.last()@ == sv[0]);
            assert(merged_chunks@.map_values(|c: DataChunk| c@).drop_last()
                =~= Seq::<ChunkModel>::empty());
            assert(seq![merged_chunks@.last()@] + sorted@.map_values(|c: DataChunk| c@) =~= sv);
            assert(Seq::<ChunkModel>::empty() + merge_adjacent(sv) =~= merge_adjacent(sv));
        }
        while sorted.len() > 0
            invariant
                merged_chunks@.len() >= 1,
                merge_adjacent(sort_chunks(orig)) == merged_chunks@.map_values(
                    |c: DataChunk| c@,
                ).drop_last() + merge_adjacent(
                    seq![merged_chunks@.last()@] + sorted@.map_values(|c: DataChunk| c@),
                ),
                self@.header_data == old(self)@.header_data,
                self@.start_address == old(self)@.start_address,
            decreases sorted@.len(),
        {
            let ghost mv = merged_chunks@.map_values(|c: DataChunk| c@);
            let ghost tail = seq![merged_chunks@.last()@] + sorted@.map_values(|c: DataChunk| c@);
            let ghost before_c = sorted@;
            let c = sorted.remove(0);
            proof {
                lemma_view_of_remove0(before_c);
                assert(tail[1] == c@);
                assert(tail.skip(2) =~= sorted@.map_values(|c2: DataChunk| c2@));
            }
            let last_index = merged_chunks.len() - 1;
            let touches = match merged_chunks[last_index].address.checked_add(
                merged_chunks[last_index].data.len() as u64,
            ) {
                Some(e) => e == c.address,
                None => false,
            };
            if touches {
                let mut incoming = c;
                let last_opt = merged_chunks.pop();
                let mut last_chunk = match last_opt {
                    Some(l) => l,
                    None => vstd::pervasive::unreached(),
                };
                last_chunk.data.append(&mut incoming.data);
                merged_chunks.push(last_chunk);
                proof {
                    let merged = ChunkModel { address: tail[0].address, data: tail[0].data + tail[1].data };
                    assert(merge_adjacent(tail) == merge_adjacent(seq![merged] + tail.skip(2)));
                    assert(merged_chunks@.map_values(|c2: DataChunk| c2@).drop_last() =~= mv.drop_last());
                    assert(merged_chunks@.last()@ == merged);
                    assert(seq![merged_chunks@.last()@] + sorted@.map_values(|c2: DataChunk| c2@)
                        =~= seq![merged] + tail.skip(2));
                }
            } else {
                merged_chunks.push(c);
                proof {
                    assert(tail[0].end() != tail[1].address);
                    assert(merge_adjacent(tail) == seq![tail[0]] + merge_adjacent(tail.skip(1)));
                    assert(merged_chunks@.map_values(|c2: DataChunk| c2@).drop_last() =~= mv.drop_last().push(tail[0]));
                    assert(mv.drop_last() + (seq![tail[0]] + merge_adjacent(tail.skip(1)))
                        =~= (mv.drop_last().push(tail[0])) + merge_adjacent(tail.skip(1)));
                    assert(seq![merged_chunks@.last()@] + sorted@.map_values(|c2: DataChunk| c2@)
                        =~= tail.skip(1));
                }
            }
        }
        proof {
            let mv = merged_chunks@.map_values(|c: DataChunk| c@);
            assert(seq![merged_chunks@.last()@] + sorted@.map_values(|c: DataChunk| c@)
                =~= seq![mv.last()]);
            assert(merge_adjacent(seq![mv.last()]) =~= seq![mv.last()]);
            assert(mv.drop_last() + seq![mv.last()] =~= mv);
        }
        self.data_chunks = merged_chunks;
    }
}

/// The merge pass leaves a finished file's chunk list unchanged: its chunks
/// never touch.
pub proof fn lemma_merge_of_wf_chunks(cs: Seq<ChunkModel>)
    requires
        chunks_wf(cs),
    ensures
        spec_merge(cs) == Ok::<Seq<ChunkModel>, ErrorType>(cs),
    decreases cs.len(),
{
    if cs.len() > 1 {
        assert(cs.skip(1)[0] == cs[1]);
        assert forall|i: int| 0 <= i < cs.skip(1).len() implies (#[trigger] cs.skip(1)[i]).wf() by {
            assert(cs.skip(1)[i] == cs[i + 1]);
        }
        assert forall|i: int|
            0 <= i < cs.skip(1).len() - 1 implies (#[trigger] cs.skip(1)[i]).end() < cs.skip(1)[i
            + 1].address by {
            assert(cs.skip(1)[i] == cs[i + 1]);
            assert(cs.skip(1)[i + 1] == cs[i + 2]);
        }
        lemma_merge_of_wf_chunks(cs.skip(1));
        assert(seq![cs[0]] + cs.skip(1) =~= cs);
    }
}

/// Spec-level processing of a list of already-parsed records.
pub open spec fn spec_process_records(rs: Seq<RecordModel>, st: ParseState) -> Result<
    ParseState,
    ErrorType,
>
    decreases rs.len(),
{
    if rs.len() == 0 {
        Ok(st)
    } else {
        match spec_apply_record(st, rs[0]) {
            Err(e) => Err(e),
            Ok(st2) => spec_process_records(rs.skip(1), st2),
        }
    }
}

/// Processing a concatenation of record lists processes them in turn.
pub proof fn lemma_process_records_add(a: Seq<RecordModel>, b: Seq<RecordModel>, st: ParseState)
    ensures
        spec_process_records(a + b, st) == match spec_process_records(a, st) {
            Ok(st2) => spec_process_records(b, st2),
            Err(e) => Err(e),
        },
    decreases a.len(),
{
    if a.len() == 0 {
        assert(a + b =~= b);
    } else {
        assert((a + b)[0] == a[0]);
        match spec_apply_record(st, a[0]) {
            Err(_) => {},
            Ok(st2) => {
                assert((a + b).skip(1) =~= a.skip(1) + b);
                lemma_process_records_add(a.skip(1), b, st2);
            },
        }
    }
}

/// The canonical text of a list of records, one line per record, each line
/// closed by a line feed.
pub open spec fn record_texts_joined(rs: Seq<RecordModel>) -> Seq<u8>
    decreases rs.len(),
{
    if rs.len() == 0 {
        Seq::empty()
    } else {
        crate::record::record_text(rs[0]) + seq![LINE_FEED] + record_texts_joined(rs.skip(1))
    }
}

/// Processing the lines of the joined canonical texts of well-formed records
/// is processing the records.
pub proof fn lemma_process_of_joined_texts(rs: Seq<RecordModel>, st: ParseState)
    requires
        forall|i: int| 0 <= i < rs.len() ==> (#[trigger] rs[i]).wf(),
    ensures
        spec_process_lines(spec_lines(record_texts_joined(rs)), st) == spec_process_records(
            rs,
            st,
        ),
    decreases rs.len(),
{
    if rs.len() > 0 {
        let r = rs[0];
        let text = crate::record::record_text(r);
        let joined = record_texts_joined(rs);
        let rest = record_texts_joined(rs.skip(1));
        crate::record::lemma_line_text_ascii(r.tag(), r.addr_value(), r.payload());
        assert(text.len() >= 1) by {
            crate::hex::lemma_pow256_values();
            assert(text[0] == crate::utils::TAG_S);
        }
        assert forall|i: int| 0 <= i < text.len() implies joined[i] != LINE_FEED by {
            assert(joined[i] == text[i]);
            assert(text[i] >= CARRIAGE_RETURN + 0x23);
        }
        assert(joined[text.len() as int] == LINE_FEED);
        lemma_find_newline_from_scan(joined, text.len() as int);
        assert(joined.len() == text.len() + 1 + rest.len());
        // The line before the line feed is exactly the record's text, with
        // no carriage return to strip.
        assert(joined[text.len() - 1] == text[text.len() - 1]);
        assert(text[text.len() - 1] != CARRIAGE_RETURN);
        assert(joined.subrange(0, text.len() as int) =~= text);
        assert(joined.skip(text.len() as int + 1) =~= rest);
        assert(spec_lines(joined) == seq![text] + spec_lines(rest));
        crate::record::lemma_serialize_then_parse(r);
        assert(crate::record::spec_parse_record(text) == Ok::<RecordModel, ErrorType>(r));
        assert((seq![text] + spec_lines(rest))[0] == text);
        assert((seq![text] + spec_lines(rest)).skip(1) =~= spec_lines(rest));
        match spec_apply_record(st, r) {
            Err(_) => {},
            Ok(st2) => {
                assert forall|i: int| 0 <= i < rs.skip(1).len() implies (
                #[trigger] rs.skip(1)[i]).wf() by {
                    assert(rs.skip(1)[i] == rs[i + 1]);
                }
                lemma_process_of_joined_texts(rs.skip(1), st2);
            },
        }
    }
}

/// The chunk list a parse has built after consuming the windows of the
/// first `index` chunks whole and the first `offset` bytes of chunk `index`.
pub open spec fn built_chunks(cs: Seq<ChunkModel>, index: int, offset: nat) -> Seq<ChunkModel> {
    if offset == 0 {
        cs.take(index)
    } else {
        cs.take(index).push(
            ChunkModel { address: cs[index].address, data: cs[index].data.take(offset as int) },
        )
    }
}

/// Every window of a well-formed, serializable chunk list is a non-empty run
/// of at most `size` bytes inside the 32-bit address space.
pub proof fn lemma_windows_wf(cs: Seq<ChunkModel>, size: nat, index: int, offset: nat)
    requires
        chunks_wf(cs),
        forall|i: int| 0 <= i < cs.len() ==> (#[trigger] cs[i]).end() <= 0x100000000,
        1 <= size,
        0 <= index <= cs.len(),
    ensures
        forall|i: int|
            0 <= i < windows_from(cs, size, index, offset).len() ==> {
                let w = #[trigger] windows_from(cs, size, index, offset)[i];
                1 <= w.data.len() <= size && w.address + w.data.len() <= 0x100000000
            },
    decreases cs.len() - index, (if index < cs.len() {
        cs[index].data.len() + 1 - offset
    } else {
        0
    }),
{
    if index < cs.len() {
        let c = cs[index];
        if offset >= c.data.len() {
            assert(crate::data_chunk::spec_windows(c, size, offset) =~= Seq::<ChunkModel>::empty());
            lemma_windows_wf(cs, size, index + 1, 0);
            assert(windows_from(cs, size, index, offset) =~= windows_from(cs, size, index + 1, 0));
        } else {
            let k = if size <= c.data.len() - offset {
                size as int
            } else {
                c.data.len() - offset
            };
            let w = ChunkModel {
                address: (c.address + offset) as u64,
                data: c.data.subrange(offset as int, offset + k),
            };
            lemma_windows_wf(cs, size, index, (offset + k) as nat);
            assert(windows_from(cs, size, index, offset) =~= seq![w] + windows_from(
                cs,
                size,
                index,
                (offset + k) as nat,
            ));
            assert(1 <= w.data.len() <= size);
            assert(w.address + w.data.len() <= c.end());
            assert forall|i: int| 0 <= i < windows_from(cs, size, index, offset).len() implies {
                let w2 = #[trigger] windows_from(cs, size, index, offset)[i];
                1 <= w2.data.len() <= size && w2.address + w2.data.len() <= 0x100000000
            } by {
                if i > 0 {
                    assert(windows_from(cs, size, index, offset)[i] == windows_from(
                        cs,
                        size,
                        index,
                        (offset + k) as nat,
                    )[i - 1]);
                }
            }
        }
    }
}

/// Feeding the windows of a well-formed chunk list into the parse dispatch,
/// from chunk `index` and offset `offset` on, extends the built chunk list
/// to the whole list: the first window of each chunk starts it and every
/// further window lands exactly on its end.
#[verifier::rlimit(100)]
#[verifier::spinoff_prover]
pub proof fn lemma_process_data_windows(cs: Seq<ChunkModel>, size: nat, index: int, offset: nat, st: ParseState)
    requires
        chunks_wf(cs),
        forall|i: int| 0 <= i < cs.len() ==> (#[trigger] cs[i]).end() <= 0x100000000,
        1 <= size,
        0 <= index <= cs.len(),
        index < cs.len() ==> offset <= cs[index].data.len(),
        index == cs.len() ==> offset == 0,
        st.file.chunks == built_chunks(cs, index, offset),
    ensures
        spec_process_records(
            windows_to_records(windows_from(cs, size, index, offset)),
            st,
        ) == Ok::<ParseState, ErrorType>(
            ParseState {
                file: FileModel { chunks: cs, ..st.file },
                num_data_records: st.num_data_records + windows_from(
                    cs,
                    size,
                    index,
                    offset,
                ).len(),
            },
        ),
    decreases cs.len() - index, (if index < cs.len() {
        cs[index].data.len() + 1 - offset
    } else {
        0
    }),
{
    lemma_chunks_wf_is_pre_merge(cs);
    if index == cs.len() {
        assert(windows_from(cs, size, index, offset) =~= Seq::<ChunkModel>::empty());
        assert(windows_to_records(Seq::<ChunkModel>::empty()) =~= Seq::<RecordModel>::empty());
        assert(built_chunks(cs, index, 0) =~= cs);
        assert(st.file == FileModel { chunks: cs, ..st.file });
        return ;
    }
    let c = cs[index];
    assert(c.wf());
    if offset >= c.data.len() {
        // The current chunk is fully built; its windows are done.
        assert(crate::data_chunk::spec_windows(c, size, offset) =~= Seq::<ChunkModel>::empty());
        assert(windows_from(cs, size, index, offset) =~= windows_from(cs, size, index + 1, 0));
        assert(c.data.take(offset as int) =~= c.data);
        assert(built_chunks(cs, index, offset) =~= built_chunks(cs, index + 1, 0));
        assert(st.file.chunks == built_chunks(cs, index + 1, 0));
        lemma_process_data_windows(cs, size, index + 1, 0, st);
        return ;
    }
    // Emit one window.
    let k = if size <= c.data.len() - offset {
        size as int
    } else {
        c.data.len() - offset
    };
    let w = ChunkModel {
        address: (c.address + offset) as u64,
        data: c.data.subrange(offset as int, offset + k),
    };
    let rec = RecordModel::Data { kind: crate::record_type::RecordType::S3, address: w.address, data: w.data };
    assert(windows_from(cs, size, index, offset) =~= seq![w] + windows_from(
        cs,
        size,
        index,
        (offset + k) as nat,
    ));
    lemma_windows_to_records_add(seq![w], windows_from(cs, size, index, (offset + k) as nat));
    assert(windows_to_records(seq![w]) =~= seq![rec]);

    let built = built_chunks(cs, index, offset);
    let addr = w.address;
    assert(addr == c.address + offset);
    // Locate the window's address in the built list.
    assert forall|a: int, b: int| 0 <= a < b < built.len() implies built[a].address
        < built[b].address by {
        assert(built[a].address == cs[a].address);
        if b < index {
            assert(built[b].address == cs[b].address);
        } else {
            assert(built[b].address == cs[index].address);
            lemma_end_below_later_start(cs, a, index);
        }
    }
    if offset == 0 {
        // A fresh chunk: the address lies beyond everything built so far.
        assert(built =~= cs.take(index));
        assert forall|i: int| 0 <= i < index implies (#[trigger] built[i]).address < addr by {
            lemma_end_below_later_start(cs, i, index);
        }
        lemma_insertion_rank_from_split(built, addr, index);
        if index > 0 {
            assert(built[index - 1] == cs[index - 1]);
            lemma_end_below_later_start(cs, index - 1, index);
            assert(built[index - 1].end() < addr);
        }
        assert(spec_locate(built, addr, true) == Err::<int, int>(index));
        assert(w.data.len() > 0);
        let st2 = ParseState {
            file: FileModel { chunks: built.insert(index, w), ..st.file },
            num_data_records: st.num_data_records + 1,
        };
        assert(spec_apply_record(st, rec) == Ok::<ParseState, ErrorType>(st2));
        assert(built.insert(index, w) =~= built_chunks(cs, index, (offset + k) as nat)) by {
            assert(w.data =~= c.data.take(k));
        }
        lemma_process_data_windows(cs, size, index, (offset + k) as nat, st2);
        assert((seq![rec] + windows_to_records(
            windows_from(cs, size, index, (offset + k) as nat),
        )).skip(1) =~= windows_to_records(windows_from(cs, size, index, (offset + k) as nat)));
    } else {
        // A continuation: the address is exactly the built chunk's end.
        let partial = ChunkModel { address: c.address, data: c.data.take(offset as int) };
        assert(built =~= cs.take(index).push(partial));
        assert(built.len() == index + 1);
        assert(built[index as int] == partial);
        assert forall|i: int| 0 <= i < index + 1 implies (#[trigger] built[i]).address <= addr by {
            if i < index {
                lemma_end_below_later_start(cs, i, index);
            }
        }
        lemma_insertion_rank_from_split(built, addr, index + 1);
        assert(partial.end() == addr);
        assert(spec_locate(built, addr, true) == Ok::<int, int>(index));
        let merged = ChunkModel { address: partial.address, data: partial.data + w.data };
        let st2 = ParseState {
            file: FileModel { chunks: built.update(index, merged), ..st.file },
            num_data_records: st.num_data_records + 1,
        };
        assert(spec_apply_record(st, rec) == Ok::<ParseState, ErrorType>(st2));
        assert(merged.data =~= c.data.take(offset + k));
        assert(built.update(index, merged) =~= built_chunks(cs, index, (offset + k) as nat));
        lemma_process_data_windows(cs, size, index, (offset + k) as nat, st2);
        assert((seq![rec] + windows_to_records(
            windows_from(cs, size, index, (offset + k) as nat),
        )).skip(1) =~= windows_to_records(windows_from(cs, size, index, (offset + k) as nat)));
    }
}

/// Round trip of a whole file: the serialization of any well-formed,
/// serializable file — its records written as canonical lines, each closed
/// by a line feed — parses back to exactly that file, whatever record size
/// its data was cut into.
#[verifier::rlimit(100)]
#[verifier::spinoff_prover]
pub proof fn lemma_file_round_trip(fm: FileModel, size: usize)
    requires
        chunks_wf(fm.chunks),
        file_serializable(fm, size),
    ensures
        spec_parse_file(record_texts_joined(spec_file_records(fm, size))) == Ok::<
            FileModel,
            ErrorType,
        >(fm),
{
    let cs = fm.chunks;
    let rs = spec_file_records(fm, size);
    let init = spec_initial_state();
    let header_part: Seq<RecordModel> = match fm.header_data {
        Some(d) => seq![RecordModel::Header { data: d }],
        None => Seq::empty(),
    };
    let data_part = windows_to_records(windows_from(cs, size as nat, 0, 0));
    let total = data_part.len() as int;
    let count_part: Seq<RecordModel> = if total < 0x10000 {
        seq![RecordModel::Count { kind: crate::record_type::RecordType::S5, count: total }]
    } else if total < 0x1000000 {
        seq![RecordModel::Count { kind: crate::record_type::RecordType::S6, count: total }]
    } else {
        Seq::empty()
    };
    let start_part: Seq<RecordModel> = match fm.start_address {
        Some(a) => seq![
            RecordModel::Start { kind: crate::record_type::RecordType::S7, address: a },
        ],
        None => Seq::empty(),
    };
    assert(rs == header_part + data_part + count_part + start_part);

    // Step 1: the header record, if any.
    let st1 = match fm.header_data {
        Some(d) => ParseState {
            file: FileModel { header_data: Some(d), ..init.file },
            ..init
        },
        None => init,
    };
    assert(spec_process_records(header_part, init) == Ok::<ParseState, ErrorType>(st1)) by {
        match fm.header_data {
            Some(d) => {
                let r = RecordModel::Header { data: d };
                assert(header_part[0] == r);
                assert(header_part.skip(1) =~= Seq::<RecordModel>::empty());
                assert(spec_apply_record(init, r) == Ok::<ParseState, ErrorType>(st1));
                assert(spec_process_records(header_part.skip(1), st1) == Ok::<
                    ParseState,
                    ErrorType,
                >(st1));
            },
            None => {},
        }
    }

    // Step 2: the data records rebuild the chunks window by window.
    assert(st1.file.chunks == built_chunks(cs, 0, 0)) by {
        assert(cs.take(0) =~= Seq::<ChunkModel>::empty());
    }
    lemma_process_data_windows(cs, size as nat, 0, 0, st1);
    let st2 = ParseState {
        file: FileModel { chunks: cs, ..st1.file },
        num_data_records: windows_from(cs, size as nat, 0, 0).len() as int,
    };
    assert(spec_process_records(data_part, st1) == Ok::<ParseState, ErrorType>(st2));

    // Step 3: the count record, if one is emitted, matches the count.
    assert(st2.num_data_records == total);
    assert(spec_process_records(count_part, st2) == Ok::<ParseState, ErrorType>(st2)) by {
        if count_part.len() > 0 {
            assert(count_part.skip(1) =~= Seq::<RecordModel>::empty());
        }
    }

    // Step 4: the start address record, if any.
    let st3 = match fm.start_address {
        Some(a) => ParseState {
            file: FileModel { start_address: Some(a), ..st2.file },
            ..st2
        },
        None => st2,
    };
    assert(spec_process_records(start_part, st2) == Ok::<ParseState, ErrorType>(st3)) by {
        match fm.start_address {
            Some(a) => {
                let r = RecordModel::Start {
                    kind: crate::record_type::RecordType::S7,
                    address: a,
                };
                assert(start_part[0] == r);
                assert(start_part.skip(1) =~= Seq::<RecordModel>::empty());
                assert(spec_apply_record(st2, r) == Ok::<ParseState, ErrorType>(st3));
                assert(spec_process_records(start_part.skip(1), st3) == Ok::<
                    ParseState,
                    ErrorType,
                >(st3));
            },
            None => {},
        }
    }

    // Chain the four steps.
    lemma_process_records_add(header_part, data_part + count_part + start_part, init);
    lemma_process_records_add(data_part, count_part + start_part, st1);
    lemma_process_records_add(count_part, start_part, st2);
    assert(header_part + (data_part + (count_part + start_part)) =~= rs);
    assert(data_part + (count_part + start_part) =~= data_part + count_part + start_part);
    assert(spec_process_records(rs, init) == Ok::<ParseState, ErrorType>(st3));

    // Every emitted record is well-formed.
    lemma_windows_wf(cs, size as nat, 0, 0);
    assert forall|i: int| 0 <= i < rs.len() implies (#[trigger] rs[i]).wf() by {
        let h = header_part.len() as int;
        let d = data_part.len() as int;
        let c = count_part.len() as int;
        if i < h {
            assert(rs[i] == header_part[0]);
        } else if i < h + d {
            assert(rs[i] == data_part[i - h]);
            let w = windows_from(cs, size as nat, 0, 0)[i - h];
            assert(data_part[i - h] == (RecordModel::Data {
                kind: crate::record_type::RecordType::S3,
                address: w.address,
                data: w.data,
            }));
        } else if i < h + d + c {
            assert(rs[i] == count_part[i - h - d]);
        } else {
            assert(rs[i] == start_part[i - h - d - c]);
        }
    }

    // From text lines back to records, and the merge pass changes nothing.
    lemma_process_of_joined_texts(rs, init);
    lemma_merge_of_wf_chunks(cs);
    assert(st3.file == fm);
    assert(FileModel { chunks: cs, ..st3.file } == fm);
}

/// Round trip in the direction of the text: a text that is the lossless
/// serialization of some file — canonical lines, with the record size that
/// reproduces its chunking — parses successfully, and serializing the parsed
/// file with that same record size reproduces the text byte for byte.
pub proof fn lemma_parse_then_serialize_file(text: Seq<u8>, fm: FileModel, size: usize)
    requires
        text == record_texts_joined(spec_file_records(fm, size)),
        chunks_wf(fm.chunks),
        file_serializable(fm, size),
    ensures
        spec_parse_file(text) is Ok,
        record_texts_joined(spec_file_records(spec_parse_file(text)->Ok_0, size)) == text,
{
    lemma_file_round_trip(fm, size);
}

impl Default for SRecordFile {
    /// An empty file, as [`SRecordFile::new`] builds it.
    fn default() -> (r: SRecordFile)
        ensures
            r@.header_data is None,
            r@.chunks == Seq::<ChunkModel>::empty(),
            r@.start_address is None,
            r.wf(),
    {
        SRecordFile::new()
    }
}

} // verus!
