//! Media of which ranges are stored, compressed or sparse.

use std::collections::HashMap;
use std::sync::Arc;

use vstd::prelude::*;
use vstd::rwlock::{RwLock, RwLockPredicate};

use crate::compression::{decompress, decompressed, CompressionMethod};
use crate::error::DriverError;
use crate::source::capabilities::DataSourceCapabilities;
use crate::source::data_source::{
    read_bytes, Content, DataSource, DataSourceReference, SharedDataSource,
};
use crate::source::extent_map::fill_zero;

verus! {

/// How the bytes of a range are stored.
pub enum PackedStorage {
    /// Not at all: they are zero.
    Zero,
    /// As they are, at an offset of a source.
    Stored { source: DataSourceReference, offset: u64 },
    /// Compressed, in `size` bytes at an offset of a source. They are decompressed into a buffer
    /// of `capacity` bytes, of which at least `minimum` have to be decompressed ones.
    Compressed {
        source: DataSourceReference,
        offset: u64,
        size: u32,
        method: CompressionMethod,
        capacity: u32,
        minimum: u64,
    },
}

/// A range of a medium.
pub struct PackedRange {
    pub logical_offset: u64,
    pub size: u64,
    pub storage: PackedStorage,
}

/// The bytes of a compressed range.
pub open spec fn unpacked_range(range: PackedRange) -> Result<Seq<u8>, DriverError> {
    match range.storage {
        PackedStorage::Compressed { source, offset, size, method, capacity, minimum } =>
            match source.content().exact(offset as int, size as nat) {
                Err(error) => Err(error),
                Ok(data) => match decompressed(method, data, capacity as nat) {
                    None => Err(DriverError::Compression),
                    Some((buffer, count)) => if count < minimum {
                        Err(DriverError::Compression)
                    } else {
                        Ok(buffer.take(range.size as int))
                    },
                },
            },
        _ => Err(DriverError::Invalid),
    }
}

/// The byte of a medium at an offset in a range, if it can be read.
pub open spec fn range_byte(range: PackedRange, k: int) -> Option<u8> {
    match range.storage {
        PackedStorage::Zero => Some(0u8),
        PackedStorage::Stored { source, offset } => {
            let at = offset + (k - range.logical_offset);
            if source.content().bytes.contains_key(at) {
                Some(source.content().bytes[at])
            } else {
                None
            }
        },
        PackedStorage::Compressed { .. } => match unpacked_range(range) {
            Ok(data) => Some(data[k - range.logical_offset]),
            Err(_) => None,
        },
    }
}

/// Whether ranges follow each other without a gap up to `end`.
pub open spec fn ranges_end_at(ranges: Seq<PackedRange>, end: int) -> bool
    decreases ranges.len(),
{
    if ranges.len() == 0 {
        end == 0
    } else {
        &&& 0 < ranges.last().size
        &&& ranges.last().logical_offset + ranges.last().size == end
        &&& ranges.last().storage matches PackedStorage::Compressed { capacity, .. }
            ==> ranges.last().size <= capacity
        &&& ranges_end_at(ranges.drop_last(), ranges.last().logical_offset as int)
    }
}

/// The byte of a medium at an offset, if it can be read.
pub open spec fn packed_byte(ranges: Seq<PackedRange>, k: int) -> Option<u8>
    decreases ranges.len(),
{
    if ranges.len() == 0 {
        None
    } else if ranges.last().logical_offset <= k {
        range_byte(ranges.last(), k)
    } else {
        packed_byte(ranges.drop_last(), k)
    }
}

/// The content of a medium of `size` bytes that is made up of ranges.
pub open spec fn packed_content(ranges: Seq<PackedRange>, size: nat) -> Content {
    Content {
        size,
        bytes: Map::new(
            |k: int| 0 <= k < size && packed_byte(ranges, k) is Some,
            |k: int| packed_byte(ranges, k)->0,
        ),
    }
}

/// Whether all of a range can be read without failure.
pub open spec fn range_reliable(range: PackedRange) -> bool {
    match range.storage {
        PackedStorage::Zero => true,
        PackedStorage::Stored { source, offset } => {
            &&& source.reliable()
            &&& offset + range.size <= u64::MAX
            &&& source.content().has(offset as int, range.size as int)
        },
        PackedStorage::Compressed { source, .. } => source.reliable() && unpacked_range(range) is Ok,
    }
}

/// Whether all of every range that a part of a medium touches can be read without failure.
pub open spec fn ranges_answer(ranges: Seq<PackedRange>, offset: int, length: int) -> bool {
    forall|i: int|
        0 <= i < ranges.len() && (#[trigger] ranges[i]).logical_offset < offset + length && offset
            < ranges[i].logical_offset + ranges[i].size ==> range_reliable(ranges[i])
}

/// Whether a data source is the medium that is made up of ranges.
pub open spec fn is_packed_medium(
    logical: DataSourceReference,
    size: nat,
    ranges: Seq<PackedRange>,
) -> bool {
    &&& logical.content() == packed_content(ranges, size)
    &&& logical.progresses() == forall|i: int|
        0 <= i < ranges.len() ==> range_reliable(#[trigger] ranges[i])
    &&& logical.exhaustive() == logical.progresses()
    &&& forall|offset: int, length: int| #[trigger]
        logical.answers(offset, length) == ranges_answer(ranges, offset, length)
    &&& logical.measurable()
    &&& logical.spec_origin_path() is None
}

proof fn lemma_ranges_prefix(ranges: Seq<PackedRange>, end: int, index: int)
    requires
        ranges_end_at(ranges, end),
        0 <= index < ranges.len(),
    ensures
        ranges_end_at(ranges.take(index + 1), ranges[index].logical_offset + ranges[index].size),
        ranges_end_at(ranges.take(index), ranges[index].logical_offset as int),
        ranges[index].logical_offset + ranges[index].size <= end,
        0 < ranges[index].size,
        ranges[index].storage matches PackedStorage::Compressed { capacity, .. }
            ==> ranges[index].size <= capacity,
    decreases ranges.len(),
{
    if index == ranges.len() - 1 {
        assert(ranges.take(index + 1) =~= ranges);
        assert(ranges.take(index) =~= ranges.drop_last());
    } else {
        let front = ranges.drop_last();
        lemma_ranges_prefix(front, ranges.last().logical_offset as int, index);
        assert(front.take(index + 1) =~= ranges.take(index + 1));
        assert(front.take(index) =~= ranges.take(index));
    }
}

/// A byte between the start and the end of a range is the byte of that range.
pub proof fn lemma_packed_byte(ranges: Seq<PackedRange>, end: int, index: int, k: int)
    requires
        ranges_end_at(ranges, end),
        0 <= index < ranges.len(),
        ranges[index].logical_offset <= k < ranges[index].logical_offset + ranges[index].size,
    ensures
        packed_byte(ranges, k) == range_byte(ranges[index], k),
    decreases ranges.len(),
{
    if index < ranges.len() - 1 {
        let front = ranges.drop_last();
        lemma_ranges_prefix(front, ranges.last().logical_offset as int, index);
        lemma_packed_byte(front, ranges.last().logical_offset as int, index, k);
    }
}

/// Every byte of a range that is not stored is zero. One of a range that is stored lies as far behind
/// the offset in the source as it lies behind the start of the range. One of a compressed range is as
/// far behind the start of what the compressed data gives.
pub proof fn lemma_range_content(ranges: Seq<PackedRange>, end: nat, index: int, k: int)
    requires
        ranges_end_at(ranges, end as int),
        0 <= index < ranges.len(),
        ranges[index].logical_offset <= k < ranges[index].logical_offset + ranges[index].size,
    ensures
        k < end,
        ranges[index].storage is Zero ==> packed_content(ranges, end).bytes.contains_key(k)
            && packed_content(ranges, end).bytes[k] == 0,
        ranges[index].storage matches PackedStorage::Stored { source, offset } ==> {
            let at = offset + (k - ranges[index].logical_offset);
            &&& packed_content(ranges, end).bytes.contains_key(k)
                <==> source.content().bytes.contains_key(at)
            &&& packed_content(ranges, end).bytes.contains_key(k) ==> packed_content(
                ranges,
                end,
            ).bytes[k] == source.content().bytes[at]
        },
        ranges[index].storage matches PackedStorage::Compressed {
            source,
            offset,
            size,
            method,
            capacity,
            minimum,
        } ==> source.content().has(offset as int, size as int) ==> {
            let buffer = decompressed(
                method,
                source.content().window(offset as int, size as nat),
                capacity as nat,
            );
            match buffer {
                None => !packed_content(ranges, end).bytes.contains_key(k),
                Some((unpacked, count)) => {
                    &&& packed_content(ranges, end).bytes.contains_key(k) <==> minimum <= count
                    &&& minimum <= count && ranges[index].size <= unpacked.len()
                        ==> packed_content(ranges, end).bytes[k] == unpacked[k
                        - ranges[index].logical_offset]
                },
            }
        },
{
    lemma_ranges_prefix(ranges, end as int, index);
    lemma_packed_byte(ranges, end as int, index, k);
}

/// Predicate of the lock around the decompressed ranges.
pub struct UnpackedOf {
    pub ranges: Seq<PackedRange>,
}

impl RwLockPredicate<HashMap<u64, Arc<Vec<u8>>>> for UnpackedOf {
    open spec fn inv(self, v: HashMap<u64, Arc<Vec<u8>>>) -> bool {
        forall|index: u64|
            #[trigger] v@.contains_key(index) ==> {
                &&& index < self.ranges.len()
                &&& unpacked_range(self.ranges[index as int]) == Ok::<Seq<u8>, DriverError>(
                    v@[index]@,
                )
                &&& v@[index]@.len() == self.ranges[index as int].size
            }
    }
}

/// Decompresses a range.
fn unpack_range(range: &PackedRange) -> (result: Result<Vec<u8>, DriverError>)
    requires
        range.storage matches PackedStorage::Compressed { capacity, .. }
            ==> range.size <= capacity,
    ensures
        match result {
            Ok(data) => {
                &&& unpacked_range(*range) == Ok::<Seq<u8>, DriverError>(data@)
                &&& data@.len() == range.size
            },
            Err(error) => range_source_reliable(*range) ==> unpacked_range(*range) == Err::<
                Seq<u8>,
                DriverError,
            >(error),
        },
{
    match &range.storage {
        PackedStorage::Compressed { source, offset, size, method, capacity, minimum } => {
            let data: Vec<u8> = read_bytes(source, *offset, *size as usize)?;
            match decompress(*method, data.as_slice(), *capacity as usize) {
                Some((mut buffer, count)) => {
                    if (count as u64) < *minimum {
                        return Err(DriverError::Compression);
                    }
                    let ghost whole = buffer@;
                    buffer.truncate(range.size as usize);
                    assert(buffer@ =~= whole.take(range.size as int));
                    Ok(buffer)
                },
                None => Err(DriverError::Compression),
            }
        },
        _ => Err(DriverError::Invalid),
    }
}

/// Whether the source of a range does not fail.
pub open spec fn range_source_reliable(range: PackedRange) -> bool {
    match range.storage {
        PackedStorage::Zero => true,
        PackedStorage::Stored { source, .. } => source.reliable(),
        PackedStorage::Compressed { source, .. } => source.reliable(),
    }
}

fn copy_part(data: &[u8], from: usize, buf: &mut [u8])
    requires
        from + old(buf)@.len() <= data@.len(),
    ensures
        final(buf)@.len() == old(buf)@.len(),
        forall|k: int| 0 <= k < final(buf)@.len() ==> final(buf)@[k] == data@[from + k],
{
    let mut index: usize = 0;
    let length: usize = data.len();
    while index < buf.len()
        invariant
            index <= buf@.len(),
            buf@.len() == old(buf)@.len(),
            length == data@.len(),
            from + buf@.len() <= length,
            forall|k: int| 0 <= k < index ==> buf@[k] == data@[from + k],
        decreases buf@.len() - index,
    {
        buf[index] = data[from + index];
        index += 1;
    }
}

/// Logical source that is made up of stored, compressed and sparse ranges. A range that was
/// decompressed once is kept.
pub struct PackedDataSource {
    ranges: Vec<PackedRange>,
    size: u64,
    capabilities: DataSourceCapabilities,
    name: &'static str,
    unpacked: RwLock<HashMap<u64, Arc<Vec<u8>>>, UnpackedOf>,
}

impl PackedDataSource {
    #[verifier::type_invariant]
    spec fn well_formed(self) -> bool {
        &&& ranges_end_at(self.ranges@, self.size as int)
        &&& self.unpacked.pred() == (UnpackedOf { ranges: self.ranges@ })
    }

    /// The ranges.
    pub closed spec fn view(&self) -> Seq<PackedRange> {
        self.ranges@
    }

    /// The size.
    pub closed spec fn spec_size(&self) -> u64 {
        self.size
    }

    /// The name.
    pub closed spec fn spec_name(&self) -> Seq<char> {
        self.name@
    }

    /// The capabilities.
    pub closed spec fn own_capabilities(&self) -> DataSourceCapabilities {
        self.capabilities
    }

    /// Creates a source from ranges that follow each other.
    pub fn new(
        ranges: Vec<PackedRange>,
        size: u64,
        capabilities: DataSourceCapabilities,
        name: &'static str,
    ) -> (source: Self)
        requires
            ranges_end_at(ranges@, size as int),
        ensures
            source@ == ranges@,
            source.spec_size() == size,
            source.own_capabilities() == capabilities,
            source.spec_name() == name@,
    {
        let ghost pred = UnpackedOf { ranges: ranges@ };
        let unpacked: HashMap<u64, Arc<Vec<u8>>> = HashMap::new();
        Self { ranges, size, capabilities, name, unpacked: RwLock::new(unpacked, Ghost(pred)) }
    }

    /// Turns the source into a shared reference.
    pub fn into_reference(self) -> (reference: DataSourceReference)
        ensures
            is_packed_medium(reference, self.spec_size() as nat, self@),
            reference.spec_capabilities() == self.own_capabilities(),
            reference.spec_telemetry_name() == Some(self.spec_name()),
    {
        Arc::new(SharedDataSource { inner: Box::new(self) })
    }

    /// The index of the range that covers an offset.
    fn find_range(&self, offset: u64) -> (index: usize)
        requires
            ranges_end_at(self@, self.size as int),
            offset < self.size,
        ensures
            index < self@.len(),
            self@[index as int].logical_offset <= offset < self@[index as int].logical_offset
                + self@[index as int].size,
    {
        let mut low: usize = 0;
        let mut high: usize = self.ranges.len();
        proof {
            lemma_ranges_prefix(self@, self.size as int, 0);
            assert(self@.take(0) =~= Seq::<PackedRange>::empty());
        }
        while low + 1 < high
            invariant
                ranges_end_at(self@, self.size as int),
                offset < self.size,
                self@ == self.ranges@,
                low < high <= self@.len(),
                self@[low as int].logical_offset <= offset,
                high < self@.len() ==> offset < self@[high as int].logical_offset,
            decreases high - low,
        {
            let middle: usize = low + (high - low) / 2;
            if self.ranges[middle].logical_offset <= offset {
                low = middle;
            } else {
                high = middle;
            }
        }
        proof {
            lemma_ranges_prefix(self@, self.size as int, low as int);
            if low + 1 < self@.len() {
                lemma_ranges_prefix(self@, self.size as int, low + 1);
                assert(self@.take(low + 1).last() == self@[low as int]);
            } else {
                assert(self@.take(low + 1) =~= self@);
            }
        }
        low
    }

    /// Retrieves the bytes of a compressed range.
    fn read_unpacked(&self, index: usize) -> (result: Result<Arc<Vec<u8>>, DriverError>)
        requires
            index < self@.len(),
        ensures
            match result {
                Ok(data) => {
                    &&& unpacked_range(self@[index as int]) == Ok::<Seq<u8>, DriverError>(data@)
                    &&& data@.len() == self@[index as int].size
                },
                Err(error) => range_source_reliable(self@[index as int]) ==> unpacked_range(
                    self@[index as int],
                ) == Err::<Seq<u8>, DriverError>(error),
            },
    {
        proof {
            use_type_invariant(self);
            lemma_ranges_prefix(self@, self.size as int, index as int);
        }
        broadcast use vstd::std_specs::hash::group_hash_axioms;

        let key: u64 = index as u64;
        let ghost pred = self.unpacked.pred();
        let handle = self.unpacked.acquire_read();
        let cached: Option<Arc<Vec<u8>>> = match handle.borrow().get(&key) {
            Some(data) => Some(data.clone()),
            None => None,
        };
        handle.release_read();
        if let Some(data) = cached {
            return Ok(data);
        }
        let data: Arc<Vec<u8>> = Arc::new(unpack_range(&self.ranges[index])?);
        let (mut unpacked, write_handle) = self.unpacked.acquire_write();
        unpacked.insert(key, data.clone());
        write_handle.release_write(unpacked);
        Ok(data)
    }

    /// Reads a part of a range.
    fn read_part(&self, index: usize, offset: u64, buf: &mut [u8]) -> (result: Result<
        (),
        DriverError,
    >)
        requires
            index < self@.len(),
            self@[index as int].logical_offset <= offset,
            offset + old(buf)@.len() <= self@[index as int].logical_offset
                + self@[index as int].size,
        ensures
            final(buf)@.len() == old(buf)@.len(),
            result is Ok ==> forall|k: int|
                0 <= k < final(buf)@.len() ==> #[trigger] range_byte(
                    self@[index as int],
                    offset + k,
                ) == Some(final(buf)@[k]),
            range_reliable(self@[index as int]) ==> result is Ok,
    {
        proof {
            use_type_invariant(self);
            lemma_ranges_prefix(self@, self.size as int, index as int);
        }
        let range: &PackedRange = &self.ranges[index];
        let relative_offset: u64 = offset - range.logical_offset;
        match &range.storage {
            PackedStorage::Zero => {
                fill_zero(buf);
                Ok(())
            },
            PackedStorage::Stored { source, offset: start } => {
                let source_offset: u64 = start.checked_add(relative_offset).ok_or(
                    DriverError::Overflow,
                )?;
                source.read_exact_at(source_offset, buf)?;
                proof {
                    let content = source.content();
                    assert forall|k: int| 0 <= k < buf@.len() implies #[trigger] range_byte(
                        *range,
                        offset + k,
                    ) == Some(buf@[k]) by {
                        assert(content.bytes.contains_key(source_offset + k));
                        assert(buf@[k] == content.window(source_offset as int, buf@.len())[k]);
                    }
                }
                Ok(())
            },
            PackedStorage::Compressed { .. } => {
                let data: Arc<Vec<u8>> = self.read_unpacked(index)?;
                copy_part(data.as_slice(), relative_offset as usize, buf);
                Ok(())
            },
        }
    }
}

impl DataSource for PackedDataSource {
    open spec fn content(&self) -> Content {
        packed_content(self@, self.spec_size() as nat)
    }

    open spec fn progresses(&self) -> bool {
        self.exhaustive()
    }

    open spec fn exhaustive(&self) -> bool {
        forall|i: int| 0 <= i < self@.len() ==> range_reliable(#[trigger] self@[i])
    }

    open spec fn answers(&self, offset: int, length: int) -> bool {
        ranges_answer(self@, offset, length)
    }

    open spec fn measurable(&self) -> bool {
        true
    }

    open spec fn spec_capabilities(&self) -> DataSourceCapabilities {
        self.own_capabilities()
    }

    open spec fn spec_telemetry_name(&self) -> Option<Seq<char>> {
        Some(self.spec_name())
    }

    open spec fn spec_origin_path(&self) -> Option<Seq<char>> {
        None
    }

    fn read_at(&self, offset: u64, buf: &mut [u8]) -> (result: Result<usize, DriverError>) {
        proof {
            use_type_invariant(self);
            assert(buf@.take(0) =~= self.content().window(offset as int, 0));
        }
        if offset >= self.size || buf.len() == 0 {
            return Ok(0);
        }
        let length: usize = buf.len();
        let mut written: usize = 0;
        let mut current_offset: u64 = offset;
        let ghost content = self.content();

        while written < length && current_offset < self.size
            invariant
                current_offset <= self.size,
                written <= length,
                length == buf@.len(),
                length == old(buf)@.len(),
                current_offset == offset + written,
                ranges_end_at(self@, self.size as int),
                content == self.content(),
                content.size == self.size,
                content.has(offset as int, written as int),
                forall|k: int| 0 <= k < written ==> buf@[k] == content.bytes[offset + k],
                forall|k: int| written <= k < length ==> buf@[k] == old(buf)@[k],
            decreases length - written,
        {
            let index: usize = self.find_range(current_offset);
            proof {
                lemma_ranges_prefix(self@, self.size as int, index as int);
            }
            let range: &PackedRange = &self.ranges[index];
            let remaining: u64 = range.size - (current_offset - range.logical_offset);
            let available: usize = if remaining < (length - written) as u64 {
                remaining as usize
            } else {
                length - written
            };
            let ghost before = buf@;
            let (_done, rest) = buf.split_at_mut(written);
            let (part, _tail) = rest.split_at_mut(available);
            let result = self.read_part(index, current_offset, part);
            let ghost after = part@;
            if let Err(error) = result {
                assert(!range_reliable(self@[index as int]));
                assert(!self.exhaustive());
                assert(!self.answers(offset as int, length as int));
                return Err(error);
            }
            proof {
                assert forall|k: int|
                    current_offset <= k < current_offset + available implies
                    #[trigger] content.bytes.contains_key(k) && content.bytes[k] == after[k
                    - current_offset] by {
                    lemma_packed_byte(self@, self.size as int, index as int, k);
                    assert(range_byte(self@[index as int], current_offset + (k - current_offset))
                        == Some(after[k - current_offset]));
                }
                assert forall|k: int| 0 <= k < written + available implies buf@[k]
                    == content.bytes[offset + k] by {
                    if k < written {
                        assert(buf@[k] == before[k]);
                    } else {
                        assert(content.bytes.contains_key(offset + k));
                    }
                }
            }
            written += available;
            current_offset = current_offset + available as u64;
        }
        assert(buf@.take(written as int) =~= content.window(offset as int, written as nat));
        assert(buf@.skip(written as int) =~= old(buf)@.skip(written as int));
        Ok(written)
    }

    fn size(&self) -> (result: Result<u64, DriverError>)
        ensures
            result is Ok,
    {
        Ok(self.size)
    }

    fn capabilities(&self) -> (capabilities: DataSourceCapabilities) {
        self.capabilities
    }

    fn telemetry_name(&self) -> (name: &'static str) {
        self.name
    }

    fn origin_path(&self) -> (path: Option<&str>) {
        None
    }
}

} // verus!
