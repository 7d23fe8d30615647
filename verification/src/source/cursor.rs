use vstd::prelude::*;

use super::data_source::{DataSource, DataSourceReference};
use crate::error::DriverError;

verus! {

/// Position to move a cursor to.
#[derive(Clone, Copy, Debug, PartialEq, Eq)]
pub enum SeekFrom {
    /// Offset from the start of the source.
    Start(u64),
    /// Offset from the end of the source.
    End(i64),
    /// Offset from the current position.
    Current(i64),
}

/// The position that a seek asks for, given the current position and the size of the source.
pub open spec fn seek_target(position: SeekFrom, current: u64, size: nat) -> int {
    match position {
        SeekFrom::Start(offset) => offset as int,
        SeekFrom::End(offset) => size + offset,
        SeekFrom::Current(offset) => current + offset,
    }
}

/// Local sequential adapter over a shared immutable data source.
pub struct DataSourceCursor {
    source: DataSourceReference,
    position: u64,
}

impl Clone for DataSourceCursor {
    fn clone(&self) -> (cursor: Self)
        ensures
            cursor.spec_source() == self.spec_source(),
            cursor.spec_position() == self.spec_position(),
    {
        self.fork()
    }
}

impl DataSourceCursor {
    /// The source that is read.
    pub closed spec fn spec_source(&self) -> DataSourceReference {
        self.source
    }

    /// The current position.
    pub closed spec fn spec_position(&self) -> u64 {
        self.position
    }

    /// Creates a new cursor positioned at the start of the source.
    pub fn new(source: DataSourceReference) -> (cursor: Self)
        ensures
            cursor.spec_source() == source,
            cursor.spec_position() == 0,
    {
        Self { source, position: 0 }
    }

    /// Creates a new cursor at the specified position.
    pub fn with_position(source: DataSourceReference, position: u64) -> (cursor: Self)
        ensures
            cursor.spec_source() == source,
            cursor.spec_position() == position,
    {
        Self { source, position }
    }

    /// Creates a forked cursor at the current position.
    pub fn fork(&self) -> (cursor: Self)
        ensures
            cursor.spec_source() == self.spec_source(),
            cursor.spec_position() == self.spec_position(),
    {
        Self { source: self.source.clone(), position: self.position }
    }

    /// Creates a forked cursor at the specified position.
    pub fn fork_at(&self, position: u64) -> (cursor: Self)
        ensures
            cursor.spec_source() == self.spec_source(),
            cursor.spec_position() == position,
    {
        Self { source: self.source.clone(), position }
    }

    /// Retrieves the current position.
    pub fn position(&self) -> (position: u64)
        ensures
            position == self.spec_position(),
    {
        self.position
    }

    /// Reads data at the current cursor position.
    pub fn read(&mut self, buf: &mut [u8]) -> (result: Result<usize, DriverError>)
        ensures
            final(self).spec_source() == old(self).spec_source(),
            final(buf)@.len() == old(buf)@.len(),
            match result {
                Ok(count) => {
                    &&& count <= old(buf)@.len()
                    &&& old(self).spec_source().content().has(
                        old(self).spec_position() as int,
                        count as int,
                    )
                    &&& final(buf)@.take(count as int)
                        == old(self).spec_source().content().window(
                        old(self).spec_position() as int,
                        count as nat,
                    )
                    &&& final(buf)@.skip(count as int) == old(buf)@.skip(count as int)
                    &&& final(self).spec_position() == old(self).spec_position() + count
                },
                Err(_) => final(self).spec_position() == old(self).spec_position(),
            },
            old(self).spec_source().progresses() ==> {
                &&& result is Ok
                &&& old(buf)@.len() > 0 && old(self).spec_source().content().bytes.contains_key(
                    old(self).spec_position() as int,
                ) ==> result->Ok_0 > 0
            },
            old(self).spec_source().exhaustive() ==> {
                &&& result is Ok
                &&& result->Ok_0 == old(buf)@.len()
                    || !old(self).spec_source().content().bytes.contains_key(
                    old(self).spec_position() + result->Ok_0,
                )
            },
    {
        let read_count: usize = match self.source.read_at(self.position, buf) {
            Ok(read_count) => read_count,
            Err(error) => return Err(error),
        };
        match self.position.checked_add(read_count as u64) {
            Some(position) => {
                self.position = position;
                Ok(read_count)
            },
            None => Err(DriverError::Overflow),
        }
    }

    /// Reads an exact amount of data at the current cursor position.
    pub fn read_exact(&mut self, buf: &mut [u8]) -> (result: Result<(), DriverError>)
        ensures
            final(self).spec_source() == old(self).spec_source(),
            final(buf)@.len() == old(buf)@.len(),
            match result {
                Ok(_) => {
                    &&& old(self).spec_source().content().exact(
                        old(self).spec_position() as int,
                        old(buf)@.len(),
                    ) == Ok::<Seq<u8>, DriverError>(final(buf)@)
                    &&& final(self).spec_position() == old(self).spec_position() + old(buf)@.len()
                },
                Err(_) => final(self).spec_position() == old(self).spec_position(),
            },
            old(self).spec_source().progresses() ==> match result {
                Ok(_) => true,
                Err(error) => if old(self).spec_source().content().has(
                    old(self).spec_position() as int,
                    old(buf)@.len() as int,
                ) {
                    error == DriverError::Overflow && old(self).spec_position() + old(buf)@.len()
                        > u64::MAX
                } else {
                    error == DriverError::Truncated
                },
            },
    {
        let length: usize = buf.len();
        match self.source.read_exact_at(self.position, buf) {
            Ok(()) => {},
            Err(error) => return Err(error),
        }
        match self.position.checked_add(length as u64) {
            Some(position) => {
                self.position = position;
                Ok(())
            },
            None => Err(DriverError::Overflow),
        }
    }

    /// Sets the current cursor position.
    pub fn seek(&mut self, position: SeekFrom) -> (result: Result<u64, DriverError>)
        ensures
            final(self).spec_source() == old(self).spec_source(),
            match result {
                Ok(new_position) => {
                    &&& new_position == seek_target(
                        position,
                        old(self).spec_position(),
                        old(self).spec_source().content().size,
                    )
                    &&& final(self).spec_position() == new_position
                },
                Err(error) => {
                    &&& final(self).spec_position() == old(self).spec_position()
                    &&& old(self).spec_source().measurable() ==> {
                        let target = seek_target(
                            position,
                            old(self).spec_position(),
                            old(self).spec_source().content().size,
                        );
                        error == DriverError::Invalid && (target < 0 || target > u64::MAX)
                    }
                },
            },
    {
        let size: u64 = match self.source.size() {
            Ok(size) => size,
            Err(error) => return Err(error),
        };
        let new_position: i128 = match position {
            SeekFrom::Start(offset) => offset as i128,
            SeekFrom::Current(offset) => self.position as i128 + offset as i128,
            SeekFrom::End(offset) => size as i128 + offset as i128,
        };
        if new_position < 0 || new_position > u64::MAX as i128 {
            return Err(DriverError::Invalid);
        }
        self.position = new_position as u64;
        Ok(self.position)
    }
}

/// Seeking to the position that a cursor is at leaves it there.
pub proof fn lemma_seek_current_zero(current: u64, size: nat)
    ensures
        seek_target(SeekFrom::Current(0), current, size) == current,
{
}

/// Seeking twice from the current position seeks by both distances.
pub proof fn lemma_seek_current_twice(current: u64, size: nat, first: i64, second: i64)
    requires
        0 <= current + first <= u64::MAX,
        i64::MIN <= first + second <= i64::MAX,
    ensures
        seek_target(
            SeekFrom::Current(second),
            seek_target(SeekFrom::Current(first), current, size) as u64,
            size,
        ) == seek_target(SeekFrom::Current((first + second) as i64), current, size),
{
}

/// Where a seek from the start leads does not depend on the position of the cursor.
pub proof fn lemma_seek_start(offset: u64, current: u64, size: nat)
    ensures
        seek_target(SeekFrom::Start(offset), current, size) == offset,
{
}

/// Seeking from the end counts from behind the last byte, whatever the current position.
pub proof fn lemma_seek_end(offset: i64, current: u64, other: u64, size: nat)
    ensures
        seek_target(SeekFrom::End(0), current, size) == size,
        seek_target(SeekFrom::End(offset), current, size) - size == offset,
        seek_target(SeekFrom::End(offset), current, size) == seek_target(
            SeekFrom::End(offset),
            other,
            size,
        ),
{
}

} // verus!
