use std::sync::Arc;

use vstd::prelude::*;

use super::capabilities::{
    concurrent_cheap_capabilities, DataSourceCapabilities, DataSourceSeekCost,
};
use super::data_source::{content_of, Content, DataSource, DataSourceReference, SharedDataSource};
use crate::error::DriverError;

verus! {

/// In-memory immutable data source.
#[derive(Debug)]
pub struct MemoryDataSource {
    data: Arc<Vec<u8>>,
}

impl Clone for MemoryDataSource {
    fn clone(&self) -> (source: Self)
        ensures
            source@ == self@,
    {
        MemoryDataSource { data: self.data.clone() }
    }
}

impl MemoryDataSource {
    /// The bytes of the source.
    pub closed spec fn view(&self) -> Seq<u8> {
        self.data@
    }

    /// Creates a new in-memory data source.
    pub fn new(data: Vec<u8>) -> (source: Self)
        ensures
            source@ == data@,
    {
        Self { data: Arc::new(data) }
    }

    /// Creates a new in-memory data source from shared bytes.
    pub fn from_bytes(data: Arc<Vec<u8>>) -> (source: Self)
        ensures
            source@ == data@,
    {
        Self { data }
    }

    /// Turns the source into a shared reference.
    pub fn into_reference(self) -> (reference: DataSourceReference)
        ensures
            reference.content() == content_of(self@),
            reference.reliable(),
            reference.exhaustive(),
            forall|offset: int, length: int| #[trigger] reference.answers(offset, length),
            reference.spec_capabilities() == concurrent_cheap_capabilities(),
            reference.spec_telemetry_name() == Some(
                "keramics_drivers::source::memory::MemoryDataSource"@,
            ),
            reference.spec_origin_path() is None,
    {
        Arc::new(SharedDataSource { inner: Box::new(self) })
    }
}

impl DataSource for MemoryDataSource {
    open spec fn content(&self) -> Content {
        content_of(self@)
    }

    open spec fn progresses(&self) -> bool {
        true
    }

    open spec fn exhaustive(&self) -> bool {
        true
    }

    open spec fn answers(&self, offset: int, length: int) -> bool {
        true
    }

    open spec fn measurable(&self) -> bool {
        true
    }

    open spec fn spec_capabilities(&self) -> DataSourceCapabilities {
        concurrent_cheap_capabilities()
    }

    open spec fn spec_telemetry_name(&self) -> Option<Seq<char>> {
        Some("keramics_drivers::source::memory::MemoryDataSource"@)
    }

    open spec fn spec_origin_path(&self) -> Option<Seq<char>> {
        None
    }

    fn read_at(&self, offset: u64, buf: &mut [u8]) -> (result: Result<usize, DriverError>) {
        let data_length: usize = self.data.len();
        if offset >= data_length as u64 || buf.len() == 0 {
            assert(buf@.take(0) =~= self.content().window(offset as int, 0));
            return Ok(0);
        }
        let start: usize = offset as usize;
        let available: usize = data_length - start;
        let read_count: usize = if buf.len() < available {
            buf.len()
        } else {
            available
        };
        let mut index: usize = 0;

        while index < read_count
            invariant
                index <= read_count,
                read_count <= buf@.len(),
                buf@.len() == old(buf)@.len(),
                start + read_count <= data_length,
                data_length == self@.len(),
                self@ == self.data@,
                forall|k: int| 0 <= k < index ==> buf@[k] == self@[start + k],
                forall|k: int| index <= k < buf@.len() ==> buf@[k] == old(buf)@[k],
            decreases read_count - index,
        {
            buf[index] = self.data[start + index];
            index += 1;
        }
        assert(buf@.take(read_count as int) =~= self.content().window(
            offset as int,
            read_count as nat,
        ));
        assert(buf@.skip(read_count as int) =~= old(buf)@.skip(read_count as int));
        Ok(read_count)
    }

    fn size(&self) -> (result: Result<u64, DriverError>)
        ensures
            result is Ok,
    {
        Ok(self.data.len() as u64)
    }

    fn capabilities(&self) -> (capabilities: DataSourceCapabilities) {
        DataSourceCapabilities::concurrent(DataSourceSeekCost::Cheap)
    }

    fn telemetry_name(&self) -> (name: &'static str) {
        "keramics_drivers::source::memory::MemoryDataSource"
    }

    fn origin_path(&self) -> (path: Option<&str>) {
        None
    }
}

} // verus!
