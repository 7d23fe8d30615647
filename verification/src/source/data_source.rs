use std::sync::Arc;

use vstd::prelude::*;

use super::capabilities::DataSourceCapabilities;
use crate::bytes::{holds_be, holds_le};
use crate::error::DriverError;

verus! {

/// What a data source holds: its size, and the byte at each offset that can be read.
///
/// An offset below the size has no byte where the data behind it is missing, as in a view whose
/// underlying source is shorter than the view.
#[verifier::ext_equal]
pub struct Content {
    pub size: nat,
    pub bytes: Map<int, u8>,
}

impl Content {
    /// Whether `length` bytes can be read at `offset`.
    pub open spec fn has(self, offset: int, length: int) -> bool {
        forall|k: int| offset <= k < offset + length ==> #[trigger] self.bytes.contains_key(k)
    }

    /// The `length` bytes at `offset`.
    pub open spec fn window(self, offset: int, length: nat) -> Seq<u8> {
        Seq::new(length, |k: int| self.bytes[offset + k])
    }

    /// Whether a number of bytes at an offset hold a value, the lowest byte first.
    pub open spec fn holds_le(self, offset: int, size: nat, value: int) -> bool {
        self.has(offset, size as int) && holds_le(self.window(offset, size), 0, size, value)
    }

    /// Whether a number of bytes at an offset hold a value, the highest byte first.
    pub open spec fn holds_be(self, offset: int, size: nat, value: int) -> bool {
        self.has(offset, size as int) && holds_be(self.window(offset, size), 0, size, value)
    }

    /// The outcome of reading exactly `length` bytes at `offset`.
    pub open spec fn exact(self, offset: int, length: nat) -> Result<Seq<u8>, DriverError> {
        if self.has(offset, length as int) {
            Ok(self.window(offset, length))
        } else {
            Err(DriverError::Truncated)
        }
    }
}

/// The offset from `offset` on at which the first byte is missing, or the size.
pub open spec fn gap_from(content: Content, offset: int) -> int
    decreases content.size - offset,
{
    if offset >= content.size || !content.bytes.contains_key(offset) {
        offset
    } else {
        gap_from(content, offset + 1)
    }
}

/// The data up to the first byte that is missing.
pub open spec fn readable_data(content: Content) -> Seq<u8> {
    content.window(0, gap_from(content, 0) as nat)
}

/// Whether data is what a content starts with.
pub open spec fn is_start_of(data: Seq<u8>, content: Content) -> bool {
    &&& data.len() <= content.size
    &&& content.has(0, data.len() as int)
    &&& data == content.window(0, data.len())
}

/// What a content holds at an offset is what data that is read there holds, at any place in it.
pub proof fn lemma_holds_in(content: Content, start: int, length: nat, at: int, size: nat, value: int)
    requires
        0 <= at,
        at + size <= length,
    ensures
        content.holds_le(start + at, size, value) ==> holds_le(
            content.window(start, length),
            at,
            size,
            value,
        ),
        content.holds_be(start + at, size, value) ==> holds_be(
            content.window(start, length),
            at,
            size,
            value,
        ),
{
    let data = content.window(start, length);
    let part = content.window(start + at, size);
    assert forall|k: int| 0 <= k < size implies #[trigger] part[k] == data[at + k] by {}
    lemma_same_bytes(part, 0, data, at, size, value);
}

proof fn lemma_same_bytes(
    first: Seq<u8>,
    first_at: int,
    second: Seq<u8>,
    second_at: int,
    size: nat,
    value: int,
)
    requires
        forall|k: int| 0 <= k < size ==> #[trigger] first[first_at + k] == second[second_at + k],
    ensures
        holds_le(first, first_at, size, value) == holds_le(second, second_at, size, value),
        holds_be(first, first_at, size, value) == holds_be(second, second_at, size, value),
    decreases size,
{
    if size > 0 {
        let rest = (size - 1) as nat;
        assert(first[first_at + 0] == second[second_at + 0]);
        assert(first[first_at + rest] == second[second_at + rest]);
        lemma_same_bytes(first, first_at, second, second_at, rest, value / 256);
        assert forall|k: int| 0 <= k < rest implies #[trigger] first[first_at + 1 + k]
            == second[second_at + 1 + k] by {
            assert(first[first_at + (k + 1)] == second[second_at + (k + 1)]);
        }
        lemma_same_bytes(first, first_at + 1, second, second_at + 1, rest, value / 256);
    }
}

/// The first byte that is missing is the one before which all are there.
pub proof fn lemma_gap_from(content: Content, offset: int, end: int)
    requires
        offset <= end <= content.size,
        content.has(offset, end - offset),
        end == content.size || !content.bytes.contains_key(end),
    ensures
        gap_from(content, offset) == end,
    decreases end - offset,
{
    if offset < end {
        assert(content.bytes.contains_key(offset));
        lemma_gap_from(content, offset + 1, end);
    }
}

/// Whether reading from the start may arrive at an offset: a byte stands at it or before it.
pub open spec fn arrives(content: Content, offset: int) -> bool {
    ||| offset == 0
    ||| content.bytes.contains_key(offset)
    ||| content.bytes.contains_key(offset - 1)
}

/// The content of a source that holds exactly the bytes of `data`.
pub open spec fn content_of(data: Seq<u8>) -> Content {
    Content {
        size: data.len(),
        bytes: Map::new(|k: int| 0 <= k < data.len(), |k: int| data[k]),
    }
}

/// Immutable positioned-read byte source.
pub trait DataSource: Send + Sync {
    /// What the source holds.
    open spec fn content(&self) -> Content {
        arbitrary()
    }

    /// Whether every read succeeds, and gives at least one byte where one stands at the offset.
    open spec fn progresses(&self) -> bool {
        false
    }

    /// Whether a read gives at least one byte where one stands at the offset, and fails only where
    /// none stands, at an offset that no reading from the start arrives at.
    open spec fn advances(&self) -> bool {
        false
    }

    /// Whether every read succeeds and gives as many bytes as there are.
    open spec fn exhaustive(&self) -> bool {
        false
    }

    /// Whether a read of `length` bytes at `offset` succeeds and gives as many bytes as there are.
    open spec fn answers(&self, offset: int, length: int) -> bool {
        false
    }

    /// Whether the size can be retrieved.
    open spec fn measurable(&self) -> bool {
        false
    }

    /// The backend characteristics that the source reports.
    open spec fn spec_capabilities(&self) -> DataSourceCapabilities {
        arbitrary()
    }

    /// The telemetry name, where the source fixes it.
    open spec fn spec_telemetry_name(&self) -> Option<Seq<char>> {
        None
    }

    /// The host path that the source reports.
    open spec fn spec_origin_path(&self) -> Option<Seq<char>> {
        arbitrary()
    }

    /// Reads data starting at the specified offset. The buffer after the data stays as it was.
    fn read_at(&self, offset: u64, buf: &mut [u8]) -> (result: Result<usize, DriverError>)
        ensures
            final(buf)@.len() == old(buf)@.len(),
            result matches Ok(count) ==> {
                &&& count <= old(buf)@.len()
                &&& offset + count <= u64::MAX
                &&& self.content().has(offset as int, count as int)
                &&& final(buf)@.take(count as int) == self.content().window(
                    offset as int,
                    count as nat,
                )
                &&& final(buf)@.skip(count as int) == old(buf)@.skip(count as int)
            },
            self.progresses() || self.advances() ==> match result {
                Ok(count) => old(buf)@.len() > 0 && self.content().bytes.contains_key(
                    offset as int,
                ) ==> count > 0,
                Err(error) => error == DriverError::Truncated && !arrives(
                    self.content(),
                    offset as int,
                ),
            },
            self.progresses() ==> result is Ok,
            self.exhaustive() || self.answers(offset as int, old(buf)@.len() as int) ==> {
                &&& result is Ok
                &&& result->Ok_0 == old(buf)@.len() || !self.content().bytes.contains_key(
                    offset + result->Ok_0,
                )
            },
    ;

    /// Retrieves the total size of the source.
    fn size(&self) -> (result: Result<u64, DriverError>)
        ensures
            result matches Ok(size) ==> size == self.content().size,
            self.measurable() ==> result is Ok,
    ;

    /// Retrieves the current backend capabilities.
    fn capabilities(&self) -> (capabilities: DataSourceCapabilities)
        ensures
            capabilities == self.spec_capabilities(),
    ;

    /// Retrieves a telemetry backend name.
    fn telemetry_name(&self) -> (name: &'static str)
        ensures
            self.spec_telemetry_name() matches Some(fixed) ==> name@ == fixed,
    ;

    /// Retrieves the host path, when available.
    fn origin_path(&self) -> (path: Option<&str>)
        ensures
            match path {
                Some(path) => self.spec_origin_path() == Some(path@),
                None => self.spec_origin_path() is None,
            },
    ;

    /// Reads an exact amount of data starting at the specified offset.
    fn read_exact_at(&self, offset: u64, buf: &mut [u8]) -> (result: Result<(), DriverError>)
        ensures
            final(buf)@.len() == old(buf)@.len(),
            result is Ok ==> {
                &&& self.content().has(offset as int, old(buf)@.len() as int)
                &&& final(buf)@ == self.content().window(offset as int, old(buf)@.len())
            },
            old(buf)@.len() == 0 ==> result is Ok,
            self.answers(offset as int, old(buf)@.len() as int) ==> (result is Ok
                <==> self.content().has(offset as int, old(buf)@.len() as int)),
            self.progresses() || self.advances() ==> (result is Ok <==> self.content().has(
                offset as int,
                old(buf)@.len() as int,
            )),
            (self.progresses() || self.advances()) && result is Err ==> result == Err::<
                (),
                DriverError,
            >(DriverError::Truncated),
    {
        let length: usize = buf.len();
        let mut read_offset: usize = 0;
        let ghost content = self.content();

        while read_offset < length
            invariant
                read_offset <= length,
                length == buf@.len(),
                length == old(buf)@.len(),
                content == self.content(),
                offset + read_offset <= u64::MAX,
                self.answers(offset as int, length as int) && content.has(
                    offset as int,
                    length as int,
                ) ==> read_offset == 0 || read_offset == length,
                content.has(offset as int, read_offset as int),
                forall|k: int| 0 <= k < read_offset ==> buf@[k] == content.bytes[offset + k],
            decreases length - read_offset,
        {
            let current_offset: u64 = offset + read_offset as u64;
            let ghost before = buf@;
            let (_done, rest) = buf.split_at_mut(read_offset);
            let result = self.read_at(current_offset, rest);
            let ghost after = rest@;
            proof {
                if self.answers(offset as int, length as int) && read_offset == 0 {
                    assert(result is Ok);
                    assert(result->Ok_0 == length || !content.bytes.contains_key(
                        offset + result->Ok_0,
                    ));
                }
            }
            let read_count: usize = match result {
                Ok(read_count) => read_count,
                Err(error) => return Err(error),
            };
            if read_count == 0 {
                assert(self.progresses() || self.advances() ==> !content.bytes.contains_key(
                    offset + read_offset,
                ));
                return Err(DriverError::Truncated);
            }
            proof {
                assert forall|k: int| 0 <= k < read_offset + read_count implies buf@[k]
                    == content.bytes[offset + k] by {
                    if k < read_offset {
                        assert(buf@[k] == before[k]);
                    } else {
                        assert(after.take(read_count as int)[k - read_offset] == after[k
                            - read_offset]);
                    }
                }
            }
            read_offset += read_count;
        }
        assert(buf@ =~= content.window(offset as int, length as nat));
        Ok(())
    }

    /// Reads the entire source into memory.
    fn read_all(&self) -> (result: Result<Vec<u8>, DriverError>)
        ensures
            result matches Ok(data) ==> is_start_of(data@, self.content()),
            (self.progresses() || self.advances()) && self.measurable() ==> match result {
                Ok(data) => {
                    &&& data@ == readable_data(self.content())
                    &&& self.content().size <= usize::MAX
                },
                Err(error) => error == DriverError::TooLarge && self.content().size > usize::MAX,
            },
    {
        let size: u64 = match self.size() {
            Ok(size) => size,
            Err(error) => return Err(error),
        };
        if size > usize::MAX as u64 {
            return Err(DriverError::TooLarge);
        }
        let length: usize = size as usize;
        let mut data: Vec<u8> = vec![0; length];
        let mut read_offset: usize = 0;
        let ghost content = self.content();

        while read_offset < length
            invariant
                read_offset <= length,
                length == data@.len(),
                length == content.size,
                content == self.content(),
                content.has(0, read_offset as int),
                forall|k: int| 0 <= k < read_offset ==> data@[k] == content.bytes[k],
            ensures
                self.progresses() || self.advances() ==> read_offset == length
                    || !content.bytes.contains_key(read_offset as int),
            decreases length - read_offset,
        {
            let ghost before = data@;
            let (_done, rest) = data.as_mut_slice().split_at_mut(read_offset);
            let result = self.read_at(read_offset as u64, rest);
            let ghost after = rest@;
            let read_count: usize = match result {
                Ok(read_count) => read_count,
                Err(error) => return Err(error),
            };
            if read_count == 0 {
                break;
            }
            proof {
                assert forall|k: int| 0 <= k < read_offset + read_count implies data@[k]
                    == content.bytes[k] by {
                    if k < read_offset {
                        assert(data@[k] == before[k]);
                    } else {
                        assert(after.take(read_count as int)[k - read_offset] == after[k
                            - read_offset]);
                    }
                }
            }
            read_offset += read_count;
        }
        data.truncate(read_offset);
        assert(data@ =~= content.window(0, read_offset as nat));
        proof {
            if self.progresses() || self.advances() {
                lemma_gap_from(content, 0, read_offset as int);
            }
        }
        Ok(data)
    }
}

/// Owner of a data source of any type.
pub struct SharedDataSource {
    /// The data source.
    pub inner: Box<dyn DataSource>,
}

impl SharedDataSource {
    /// Whether every request succeeds, and a read gives at least one byte where one stands.
    pub open spec fn reliable(&self) -> bool {
        self.progresses() && self.measurable()
    }

    /// Whether every byte that stands can be read, and the size can be retrieved.
    pub open spec fn readable(&self) -> bool {
        (self.progresses() || self.advances()) && self.measurable()
    }
}

/// Shared data source reference.
pub type DataSourceReference = Arc<SharedDataSource>;

impl DataSource for SharedDataSource {
    open spec fn content(&self) -> Content {
        self.inner.content()
    }

    open spec fn progresses(&self) -> bool {
        self.inner.progresses()
    }

    open spec fn advances(&self) -> bool {
        self.inner.advances()
    }

    open spec fn exhaustive(&self) -> bool {
        self.inner.exhaustive()
    }

    open spec fn answers(&self, offset: int, length: int) -> bool {
        self.inner.answers(offset, length)
    }

    open spec fn measurable(&self) -> bool {
        self.inner.measurable()
    }

    open spec fn spec_capabilities(&self) -> DataSourceCapabilities {
        self.inner.spec_capabilities()
    }

    open spec fn spec_telemetry_name(&self) -> Option<Seq<char>> {
        self.inner.spec_telemetry_name()
    }

    open spec fn spec_origin_path(&self) -> Option<Seq<char>> {
        self.inner.spec_origin_path()
    }

    fn read_at(&self, offset: u64, buf: &mut [u8]) -> (result: Result<usize, DriverError>) {
        self.inner.read_at(offset, buf)
    }

    fn size(&self) -> (result: Result<u64, DriverError>) {
        self.inner.size()
    }

    fn capabilities(&self) -> (capabilities: DataSourceCapabilities) {
        self.inner.capabilities()
    }

    fn telemetry_name(&self) -> (name: &'static str) {
        self.inner.telemetry_name()
    }

    fn origin_path(&self) -> (path: Option<&str>) {
        self.inner.origin_path()
    }

    fn read_exact_at(&self, offset: u64, buf: &mut [u8]) -> (result: Result<(), DriverError>) {
        self.inner.read_exact_at(offset, buf)
    }

    fn read_all(&self) -> (result: Result<Vec<u8>, DriverError>) {
        self.inner.read_all()
    }
}

/// Reads exactly `length` bytes at `offset` into memory.
pub fn read_bytes(source: &DataSourceReference, offset: u64, length: usize) -> (result: Result<
    Vec<u8>,
    DriverError,
>)
    ensures
        match result {
            Ok(data) => source.content().exact(offset as int, length as nat) == Ok::<
                Seq<u8>,
                DriverError,
            >(data@),
            Err(error) => {
                &&& source.readable() ==> source.content().exact(offset as int, length as nat)
                    == Err::<Seq<u8>, DriverError>(error)
                &&& source.answers(offset as int, length as int) ==> !source.content().has(
                    offset as int,
                    length as int,
                )
            },
        },
{
    let mut data: Vec<u8> = vec![0; length];
    match source.read_exact_at(offset, data.as_mut_slice()) {
        Ok(()) => Ok(data),
        Err(error) => Err(error),
    }
}

/// Reading a range at once gives what reading it in two parts gives.
pub proof fn lemma_window_split(content: Content, offset: int, first: nat, second: nat)
    ensures
        content.has(offset, (first + second) as int) <==> content.has(offset, first as int)
            && content.has(offset + first, second as int),
        content.window(offset, first + second) == content.window(offset, first) + content.window(
            offset + first,
            second,
        ),
{
    assert(content.window(offset, first + second) =~= content.window(offset, first)
        + content.window(offset + first, second));
    if content.has(offset, first as int) && content.has(offset + first, second as int) {
        assert forall|k: int|
            offset <= k < offset + (first + second) implies #[trigger] content.bytes.contains_key(
            k,
        ) by {}
    }
}

} // verus!
