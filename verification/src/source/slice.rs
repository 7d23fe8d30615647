use std::sync::Arc;

use vstd::prelude::*;

use super::capabilities::DataSourceCapabilities;
use super::data_source::{Content, DataSource, DataSourceReference, SharedDataSource};
use crate::error::DriverError;

verus! {

/// The content of the range of `size` bytes that starts at `base_offset`.
pub open spec fn slice_content(inner: Content, base_offset: int, size: nat) -> Content {
    Content {
        size,
        bytes: Map::new(
            |k: int| 0 <= k < size && inner.bytes.contains_key(base_offset + k),
            |k: int| inner.bytes[base_offset + k],
        ),
    }
}

/// A range within a range is a range of the outermost content.
pub proof fn lemma_slice_of_slice(
    inner: Content,
    base_offset: int,
    size: nat,
    second_offset: int,
    second_size: nat,
)
    requires
        0 <= second_offset,
        second_offset + second_size <= size,
    ensures
        slice_content(slice_content(inner, base_offset, size), second_offset, second_size)
            == slice_content(inner, base_offset + second_offset, second_size),
{
    assert(slice_content(slice_content(inner, base_offset, size), second_offset, second_size)
        =~= slice_content(inner, base_offset + second_offset, second_size));
}

/// Whether a read of a range of a data source succeeds and gives as many bytes as there are.
pub open spec fn slice_answers(
    source: DataSourceReference,
    base_offset: u64,
    size: u64,
    offset: int,
    length: int,
) -> bool {
    ||| offset >= size
    ||| length <= 0
    ||| base_offset + offset <= u64::MAX && source.answers(
        base_offset + offset,
        if length < size - offset {
            length
        } else {
            size - offset
        },
    )
}

/// The byte at an offset of a range is the one as far behind its start in the content.
pub proof fn lemma_slice_byte(inner: Content, base_offset: int, size: nat, offset: int)
    ensures
        slice_content(inner, base_offset, size).size == size,
        slice_content(inner, base_offset, size).bytes.contains_key(offset) <==> 0 <= offset < size
            && inner.bytes.contains_key(base_offset + offset),
        slice_content(inner, base_offset, size).bytes.contains_key(offset) ==> slice_content(
            inner,
            base_offset,
            size,
        ).bytes[offset] == inner.bytes[base_offset + offset],
{
}

/// Whether a data source is a range of another one.
pub open spec fn is_slice(
    slice: DataSourceReference,
    source: DataSourceReference,
    base_offset: u64,
    size: u64,
) -> bool {
    &&& slice.content() == slice_content(source.content(), base_offset as int, size as nat)
    &&& slice.progresses() == (source.progresses() && base_offset + size <= u64::MAX)
    &&& slice.exhaustive() == (source.exhaustive() && base_offset + size <= u64::MAX)
    &&& forall|offset: int, length: int| #[trigger]
        slice.answers(offset, length) == slice_answers(source, base_offset, size, offset, length)
    &&& slice.measurable()
    &&& slice.spec_capabilities() == source.spec_capabilities()
    &&& slice.spec_telemetry_name() == source.spec_telemetry_name()
    &&& slice.spec_origin_path() == source.spec_origin_path()
}

/// Contiguous subrange view over a parent data source.
pub struct SliceDataSource {
    inner: DataSourceReference,
    base_offset: u64,
    size: u64,
}

impl SliceDataSource {
    /// The parent data source.
    pub closed spec fn spec_inner(&self) -> DataSourceReference {
        self.inner
    }

    /// The offset of the range in the parent data source.
    pub closed spec fn spec_base_offset(&self) -> u64 {
        self.base_offset
    }

    /// The size of the range.
    pub closed spec fn spec_size(&self) -> u64 {
        self.size
    }

    /// Creates a new slice data source.
    pub fn new(inner: DataSourceReference, base_offset: u64, size: u64) -> (source: Self)
        ensures
            source.spec_inner() == inner,
            source.spec_base_offset() == base_offset,
            source.spec_size() == size,
    {
        Self { inner, base_offset, size }
    }

    /// Turns the source into a shared reference.
    pub fn into_reference(self) -> (reference: DataSourceReference)
        ensures
            reference.content() == self.content(),
            reference.progresses() == self.progresses(),
            reference.advances() == self.advances(),
            reference.exhaustive() == self.exhaustive(),
            forall|offset: int, length: int| #[trigger]
                reference.answers(offset, length) == self.answers(offset, length),
            reference.measurable() == self.measurable(),
            reference.spec_capabilities() == self.spec_capabilities(),
            reference.spec_telemetry_name() == self.spec_telemetry_name(),
            reference.spec_origin_path() == self.spec_origin_path(),
    {
        Arc::new(SharedDataSource { inner: Box::new(self) })
    }
}

/// Opens a range of a data source.
pub fn open_slice(source: DataSourceReference, base_offset: u64, size: u64) -> (slice:
    DataSourceReference)
    ensures
        is_slice(slice, source, base_offset, size),
{
    SliceDataSource::new(source, base_offset, size).into_reference()
}

impl DataSource for SliceDataSource {
    open spec fn content(&self) -> Content {
        slice_content(
            self.spec_inner().content(),
            self.spec_base_offset() as int,
            self.spec_size() as nat,
        )
    }

    open spec fn progresses(&self) -> bool {
        self.spec_inner().progresses() && self.spec_base_offset() + self.spec_size() <= u64::MAX
    }

    open spec fn exhaustive(&self) -> bool {
        self.spec_inner().exhaustive() && self.spec_base_offset() + self.spec_size() <= u64::MAX
    }

    open spec fn answers(&self, offset: int, length: int) -> bool {
        slice_answers(
            self.spec_inner(),
            self.spec_base_offset(),
            self.spec_size(),
            offset,
            length,
        )
    }

    open spec fn measurable(&self) -> bool {
        true
    }

    open spec fn spec_capabilities(&self) -> DataSourceCapabilities {
        self.spec_inner().spec_capabilities()
    }

    open spec fn spec_telemetry_name(&self) -> Option<Seq<char>> {
        self.spec_inner().spec_telemetry_name()
    }

    open spec fn spec_origin_path(&self) -> Option<Seq<char>> {
        self.spec_inner().spec_origin_path()
    }

    fn read_at(&self, offset: u64, buf: &mut [u8]) -> (result: Result<usize, DriverError>) {
        assert(buf@.take(0) =~= self.content().window(offset as int, 0));
        if offset >= self.size || buf.len() == 0 {
            return Ok(0);
        }
        let remaining: u64 = self.size - offset;
        let available: usize = if remaining < buf.len() as u64 {
            remaining as usize
        } else {
            buf.len()
        };
        let absolute_offset: u64 = match self.base_offset.checked_add(offset) {
            Some(absolute_offset) => absolute_offset,
            None => {
                assert(!self.exhaustive());
                assert(!self.answers(offset as int, buf@.len() as int));
                return Err(DriverError::Overflow);
            },
        };
        let (part, _rest) = buf.split_at_mut(available);
        let ghost before = part@;
        let result = self.inner.read_at(absolute_offset, part);
        let ghost after = part@;
        proof {
            assert(self.exhaustive() ==> self.inner.exhaustive());
            assert(self.answers(offset as int, buf@.len() as int) ==> self.inner.answers(
                absolute_offset as int,
                available as int,
            ));
            if let Ok(count) = result {
                assert forall|k: int| offset <= k < offset
                    + count implies #[trigger] self.content().bytes.contains_key(k) by {
                    assert(self.inner.content().bytes.contains_key(self.base_offset + k));
                }
                assert(buf@.take(count as int) =~= after.take(count as int));
                assert(buf@.take(count as int) =~= self.content().window(
                    offset as int,
                    count as nat,
                ));
                assert forall|k: int| count <= k < buf@.len() implies buf@[k] == old(buf)@[k] by {
                    if k < available {
                        assert(after.skip(count as int)[k - count] == before.skip(count as int)[k
                            - count]);
                    }
                }
                assert(buf@.skip(count as int) =~= old(buf)@.skip(count as int));
            }
        }
        result
    }

    fn size(&self) -> (result: Result<u64, DriverError>)
        ensures
            result is Ok,
    {
        Ok(self.size)
    }

    fn capabilities(&self) -> (capabilities: DataSourceCapabilities) {
        self.inner.capabilities()
    }

    fn telemetry_name(&self) -> (name: &'static str) {
        self.inner.telemetry_name()
    }

    fn origin_path(&self) -> (path: Option<&str>) {
        self.inner.origin_path()
    }
}

} // verus!
