//! A contiguous chunk of data at a specific address, with bounds-checked
//! byte and range access and a record-sized windowing iterator.

use vstd::prelude::*;

verus! {

/// A contiguous chunk of data at a specific address.
///
/// A chunk represents the half-open address range from `address` to
/// `address + data.len()`.
#[derive(Clone, Debug, PartialEq, Eq)]
pub struct DataChunk {
    /// Start address of the chunk. The first byte of the data is located at
    /// this address.
    pub address: u64,
    /// Raw contiguous data of the chunk, starting at `address`.
    pub data: Vec<u8>,
}

/// Spec-level model of a chunk: its start address and data bytes.
pub struct ChunkModel {
    /// Start address of the chunk.
    pub address: u64,
    /// Data bytes of the chunk.
    pub data: Seq<u8>,
}

impl ChunkModel {
    /// Exclusive end address of the chunk.
    pub open spec fn end(self) -> int {
        self.address + self.data.len()
    }

    /// Well-formedness: a chunk is never empty and its end address fits the
    /// address space.
    pub open spec fn wf(self) -> bool {
        self.data.len() >= 1 && self.end() <= u64::MAX
    }

    /// True when `address` lies inside the chunk's range.
    pub open spec fn contains(self, address: u64) -> bool {
        self.address <= address < self.end()
    }

    /// The byte the chunk holds at `address`.
    pub open spec fn byte_at(self, address: u64) -> u8
        recommends
            self.contains(address),
    {
        self.data[address - self.address]
    }
}

impl View for DataChunk {
    type V = ChunkModel;

    open spec fn view(&self) -> ChunkModel {
        ChunkModel { address: self.address, data: self.data@ }
    }
}

impl DataChunk {
    /// Returns the inclusive start address of the chunk. Same as `address`.
    pub fn start_address(&self) -> (r: u64)
        ensures
            r == self@.address,
    {
        self.address
    }

    /// Exclusive end address of the chunk: the first address in ascending
    /// order after the start that holds no data of this chunk.
    pub fn end_address(&self) -> (r: u64)
        requires
            self@.end() <= u64::MAX,
        ensures
            r == self@.end(),
    {
        self.address + (self.data.len() as u64)
    }

    /// Returns a reference to the byte at `address`, or `None` if `address`
    /// lies outside the chunk.
    pub fn get(&self, address: u64) -> (r: Option<&u8>)
        ensures
            match r {
                Some(b) => self@.contains(address) && *b == self@.byte_at(address),
                None => !self@.contains(address),
            },
    {
        match address.checked_sub(self.address) {
            Some(offset) => {
                if offset < self.data.len() as u64 {
                    Some(&self.data[offset as usize])
                } else {
                    None
                }
            },
            None => None,
        }
    }

    /// Returns a mutable reference to the byte at `address`, or `None` if
    /// `address` lies outside the chunk.
    pub fn get_mut(&mut self, address: u64) -> (r: Option<&mut u8>)
        ensures
            match r {
                Some(b) => old(self)@.contains(address) && *b == old(self)@.byte_at(address)
                    && final(self)@.address == old(self)@.address && final(self)@.data == old(
                    self,
                )@.data.update(address - old(self)@.address, *final(b)),
                None => !old(self)@.contains(address) && *final(self) == *old(self),
            },
    {
        match address.checked_sub(self.address) {
            Some(offset) => {
                if offset < self.data.len() as u64 {
                    Some(&mut self.data[offset as usize])
                } else {
                    None
                }
            },
            None => None,
        }
    }

    /// Returns the data subslice for the address range `start..end`, or
    /// `None` unless the whole range lies inside the chunk.
    pub fn get_range(&self, start: u64, end: u64) -> (r: Option<&[u8]>)
        ensures
            match r {
                Some(slice) => self@.address <= start <= end && end - self@.address
                    <= self@.data.len() && slice@ == self@.data.subrange(
                    start - self@.address,
                    end - self@.address,
                ),
                None => !(self@.address <= start <= end && end - self@.address
                    <= self@.data.len()),
            },
    {
        match (start.checked_sub(self.address), end.checked_sub(self.address)) {
            (Some(start_offset), Some(end_offset)) => {
                if start_offset <= end_offset && end_offset <= self.data.len() as u64 {
                    Some(
                        vstd::slice::slice_subrange(
                            self.data.as_slice(),
                            start_offset as usize,
                            end_offset as usize,
                        ),
                    )
                } else {
                    None
                }
            },
            _ => None,
        }
    }

    /// Iterate over the chunk in records of at most `record_size` bytes,
    /// aligned to the start of the chunk.
    pub fn iter_records(&self, record_size: usize) -> (it: DataChunkIterator)
        ensures
            it.record_size == record_size,
            it.offset == 0,
    {
        DataChunkIterator { record_size, offset: 0 }
    }
}

/// Cursor over a [`DataChunk`], handing out successive windows of at most
/// `record_size` bytes as data records.
pub struct DataChunkIterator {
    /// Size of each window; the last window of a chunk may be shorter.
    pub record_size: usize,
    /// Offset in the chunk's data where the next window starts.
    pub offset: usize,
}

/// The windows of `c`, each of at most `size` bytes, starting at data offset
/// `from`, as chunk models.
pub open spec fn spec_windows(c: ChunkModel, size: nat, from: nat) -> Seq<ChunkModel>
    decreases c.data.len() - from when size >= 1
{
    if size == 0 || from >= c.data.len() {
        Seq::empty()
    } else {
        let k = if size <= c.data.len() - from {
            size as int
        } else {
            c.data.len() - from
        };
        seq![
            ChunkModel {
                address: (c.address + from) as u64,
                data: c.data.subrange(from as int, from + k),
            },
        ] + spec_windows(c, size, (from + k) as nat)
    }
}

impl DataChunkIterator {
    /// Hands out the next window of the chunk, as a data record holding the
    /// window's start address and bytes, or `None` when the chunk is done.
    pub fn next(&mut self, chunk: &DataChunk) -> (r: Option<crate::record::DataRecord>)
        requires
            old(self).record_size >= 1,
            chunk@.end() <= u64::MAX,
        ensures
            final(self).record_size == old(self).record_size,
            match r {
                Some(record) => {
                    let k = if old(self).record_size <= chunk@.data.len() - old(self).offset {
                        old(self).record_size as int
                    } else {
                        chunk@.data.len() - old(self).offset
                    };
                    old(self).offset < chunk@.data.len() && record.address == chunk@.address + old(
                        self,
                    ).offset && record.data@ == chunk@.data.subrange(
                        old(self).offset as int,
                        old(self).offset + k,
                    ) && final(self).offset == old(self).offset + k
                },
                None => old(self).offset >= chunk@.data.len() && final(self).offset == old(
                    self,
                ).offset,
            },
    {
        let len = chunk.data.len();
        if self.offset >= len {
            return None;
        }
        let remaining = len - self.offset;
        let k = if self.record_size <= remaining {
            self.record_size
        } else {
            remaining
        };
        let address = chunk.address + (self.offset as u64);
        let data = vstd::slice::slice_to_vec(
            vstd::slice::slice_subrange(chunk.data.as_slice(), self.offset, self.offset + k),
        );
        self.offset = self.offset + k;
        Some(crate::record::DataRecord { address, data })
    }
}

} // verus!
