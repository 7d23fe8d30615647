//! Data sources.

use std::sync::atomic::{AtomicUsize, Ordering};
use std::sync::Arc;

use keramics_drivers::source::capabilities::combine_data_source_capabilities;
use keramics_drivers::source::data_source::read_bytes;
use keramics_drivers::source::{DataSourceReadStatsState, SeekFrom};
use keramics_drivers::{
    DataSource, DataSourceCapabilities, DataSourceCursor, DataSourceReadConcurrency,
    DataSourceReadStatsSnapshot, DataSourceReference, DataSourceSeekCost, DriverError,
    ExtentMapDataSource, ExtentMapEntry, ExtentMapTarget, MemoryDataSource, ObservedDataSource,
    ProbeCachedDataSource, SegmentedDataSource, SegmentedSourceSegment, SharedDataSource,
    SliceDataSource,
};

fn memory(data: &[u8]) -> DataSourceReference {
    MemoryDataSource::new(data.to_vec()).into_reference()
}

struct CountingDataSource {
    inner: MemoryDataSource,
    read_count: Arc<AtomicUsize>,
}

impl DataSource for CountingDataSource {
    fn read_at(&self, offset: u64, buf: &mut [u8]) -> Result<usize, DriverError> {
        self.read_count.fetch_add(1, Ordering::SeqCst);
        self.inner.read_at(offset, buf)
    }

    fn size(&self) -> Result<u64, DriverError> {
        self.inner.size()
    }

    fn capabilities(&self) -> DataSourceCapabilities {
        DataSourceCapabilities::concurrent(DataSourceSeekCost::Cheap)
    }

    fn telemetry_name(&self) -> &'static str {
        "counting"
    }

    fn origin_path(&self) -> Option<&str> {
        Some("/data/image.raw")
    }
}

/// A source that gives at most one byte per request.
struct TricklingDataSource {
    data: Vec<u8>,
}

impl DataSource for TricklingDataSource {
    fn read_at(&self, offset: u64, buf: &mut [u8]) -> Result<usize, DriverError> {
        match self.data.get(offset as usize) {
            Some(value) if !buf.is_empty() => {
                buf[0] = *value;
                Ok(1)
            }
            _ => Ok(0),
        }
    }

    fn size(&self) -> Result<u64, DriverError> {
        Ok(self.data.len() as u64)
    }

    fn capabilities(&self) -> DataSourceCapabilities {
        DataSourceCapabilities::serialized(DataSourceSeekCost::Unknown)
    }

    fn telemetry_name(&self) -> &'static str {
        "trickling"
    }

    fn origin_path(&self) -> Option<&str> {
        None
    }
}

fn counting(data: Vec<u8>) -> (DataSourceReference, Arc<AtomicUsize>) {
    let read_count = Arc::new(AtomicUsize::new(0));
    let source = CountingDataSource {
        inner: MemoryDataSource::new(data),
        read_count: read_count.clone(),
    };
    let reference = Arc::new(SharedDataSource {
        inner: Box::new(source),
    });
    (reference, read_count)
}

#[test]
fn memory_test_read_at() -> Result<(), DriverError> {
    let source = MemoryDataSource::new(b"abcdef".to_vec());
    let mut data: Vec<u8> = vec![0; 3];

    let read_count: usize = source.read_at(2, &mut data)?;

    assert_eq!(read_count, 3);
    assert_eq!(data, b"cde");
    Ok(())
}

#[test]
fn test_read_all() -> Result<(), DriverError> {
    let source = MemoryDataSource::new(b"abcdef".to_vec());

    assert_eq!(source.read_all()?, b"abcdef");
    Ok(())
}

#[test]
fn memory_source_ends_at_its_size() -> Result<(), DriverError> {
    let source = MemoryDataSource::from_bytes(Arc::new(b"abcdef".to_vec()));
    let mut data: Vec<u8> = vec![0; 4];

    assert_eq!(source.size()?, 6);
    assert_eq!(source.read_at(4, &mut data)?, 2);
    assert_eq!(data, b"ef\0\0");
    assert_eq!(source.read_at(6, &mut data)?, 0);
    assert_eq!(source.read_at(u64::MAX, &mut data)?, 0);
    assert_eq!(
        source.read_exact_at(4, &mut data),
        Err(DriverError::Truncated)
    );
    assert_eq!(
        source.capabilities(),
        DataSourceCapabilities::concurrent(DataSourceSeekCost::Cheap)
    );
    assert_eq!(source.origin_path(), None);
    assert_eq!(
        source.telemetry_name(),
        "keramics_drivers::source::memory::MemoryDataSource"
    );
    Ok(())
}

#[test]
fn shared_memory_is_the_same_data() -> Result<(), DriverError> {
    let source = MemoryDataSource::new(b"abc".to_vec());
    let copy = source.clone();

    assert_eq!(copy.read_all()?, source.read_all()?);
    Ok(())
}

#[test]
fn reads_continue_over_short_reads() -> Result<(), DriverError> {
    let source = TricklingDataSource {
        data: b"abcdef".to_vec(),
    };
    let mut data: Vec<u8> = vec![0; 4];

    source.read_exact_at(1, &mut data)?;

    assert_eq!(data, b"bcde");
    assert_eq!(source.read_all()?, b"abcdef");
    assert_eq!(
        source.read_exact_at(3, &mut data),
        Err(DriverError::Truncated)
    );
    assert_eq!(
        source.read_exact_at(u64::MAX, &mut data),
        Err(DriverError::Truncated)
    );
    Ok(())
}

#[test]
fn read_bytes_is_exact() -> Result<(), DriverError> {
    let source = memory(b"abcdef");

    assert_eq!(read_bytes(&source, 2, 3)?, b"cde");
    assert_eq!(read_bytes(&source, 6, 0)?, b"");
    assert_eq!(read_bytes(&source, 4, 3), Err(DriverError::Truncated));
    Ok(())
}

#[test]
fn reading_in_parts_gives_the_whole() -> Result<(), DriverError> {
    let source = memory(b"abcdef");
    let mut parts = read_bytes(&source, 1, 2)?;
    parts.extend_from_slice(&read_bytes(&source, 3, 3)?);

    assert_eq!(parts, read_bytes(&source, 1, 5)?);
    Ok(())
}

#[test]
fn slice_test_read_at() -> Result<(), DriverError> {
    let source: DataSourceReference = memory(b"abcdefgh");
    let slice = SliceDataSource::new(source, 2, 4);
    let mut data: Vec<u8> = vec![0; 4];

    let read_count: usize = slice.read_at(0, &mut data)?;

    assert_eq!(read_count, 4);
    assert_eq!(data, b"cdef");
    Ok(())
}

#[test]
fn test_read_at_clamps_to_slice_size() -> Result<(), DriverError> {
    let source: DataSourceReference = memory(b"abcdefgh");
    let slice = SliceDataSource::new(source, 2, 4);
    let mut data: Vec<u8> = vec![0; 4];

    let read_count: usize = slice.read_at(3, &mut data)?;

    assert_eq!(read_count, 1);
    assert_eq!(&data[..1], b"f");
    Ok(())
}

#[test]
fn slice_may_reach_past_its_source() -> Result<(), DriverError> {
    let slice = SliceDataSource::new(memory(b"abcdefgh"), 6, 4);
    let mut data: Vec<u8> = vec![0; 4];

    assert_eq!(slice.size()?, 4);
    assert_eq!(slice.read_at(0, &mut data)?, 2);
    assert_eq!(slice.read_all()?, b"gh");
    assert_eq!(slice.read_at(4, &mut data)?, 0);
    assert_eq!(
        slice.read_exact_at(0, &mut data),
        Err(DriverError::Truncated)
    );
    Ok(())
}

#[test]
fn slice_of_a_slice_is_a_slice() -> Result<(), DriverError> {
    let outer = SliceDataSource::new(memory(b"abcdefgh"), 1, 6).into_reference();
    let inner = SliceDataSource::new(outer, 2, 3);

    assert_eq!(inner.read_all()?, b"def");
    Ok(())
}

#[test]
fn test_read_advances_position() -> Result<(), DriverError> {
    let source: DataSourceReference = memory(b"hello world");
    let mut cursor = DataSourceCursor::new(source);
    let mut data: Vec<u8> = vec![0; 5];

    let read_count: usize = cursor.read(&mut data)?;

    assert_eq!(read_count, 5);
    assert_eq!(data, b"hello");
    assert_eq!(cursor.position(), 5);
    Ok(())
}

#[test]
fn test_seek_and_read_exact() -> Result<(), DriverError> {
    let source: DataSourceReference = memory(b"hello world");
    let mut cursor = DataSourceCursor::new(source);
    let mut data: Vec<u8> = vec![0; 5];

    let offset: u64 = cursor.seek(SeekFrom::Start(6))?;
    assert_eq!(offset, 6);

    cursor.read_exact(&mut data)?;

    assert_eq!(data, b"world");
    assert_eq!(cursor.position(), 11);
    Ok(())
}

#[test]
fn test_fork_keeps_independent_position() -> Result<(), DriverError> {
    let source: DataSourceReference = memory(b"abcdef");
    let mut cursor_a = DataSourceCursor::new(source);
    let mut cursor_b = cursor_a.fork();
    let mut data_a: Vec<u8> = vec![0; 3];
    let mut data_b: Vec<u8> = vec![0; 2];

    cursor_a.read_exact(&mut data_a)?;
    cursor_b.seek(SeekFrom::Start(3))?;
    cursor_b.read_exact(&mut data_b)?;

    assert_eq!(data_a, b"abc");
    assert_eq!(data_b, b"de");
    assert_eq!(cursor_a.position(), 3);
    assert_eq!(cursor_b.position(), 5);
    Ok(())
}

#[test]
fn cursor_seeks_from_each_origin() -> Result<(), DriverError> {
    let mut cursor = DataSourceCursor::with_position(memory(b"abcdef"), 2);

    assert_eq!(cursor.position(), 2);
    assert_eq!(cursor.seek(SeekFrom::Current(3))?, 5);
    assert_eq!(cursor.seek(SeekFrom::Current(-4))?, 1);
    assert_eq!(cursor.seek(SeekFrom::Current(0))?, 1);
    cursor.seek(SeekFrom::Current(2))?;
    cursor.seek(SeekFrom::Current(1))?;
    assert_eq!(cursor.position(), cursor.fork_at(1).seek(SeekFrom::Current(3))?);
    assert_eq!(cursor.seek(SeekFrom::End(-2))?, 4);
    assert_eq!(cursor.seek(SeekFrom::End(10))?, 16);
    assert!(cursor.seek(SeekFrom::Current(-17)).is_err());
    assert_eq!(cursor.position(), 16);

    let mut data: Vec<u8> = vec![0; 2];
    assert_eq!(cursor.read(&mut data)?, 0);
    assert_eq!(cursor.read_exact(&mut data), Err(DriverError::Truncated));
    assert_eq!(cursor.fork_at(4).position(), 4);
    assert_eq!(cursor.clone().position(), 16);
    Ok(())
}

#[test]
fn test_read_data_and_zero_extents() -> Result<(), DriverError> {
    let source: DataSourceReference = memory(b"abcdef");
    let extent_map = ExtentMapDataSource::new(vec![
        ExtentMapEntry {
            logical_offset: 0,
            size: 2,
            target: ExtentMapTarget::Data {
                source: source.clone(),
                source_offset: 1,
            },
        },
        ExtentMapEntry {
            logical_offset: 2,
            size: 2,
            target: ExtentMapTarget::Zero,
        },
        ExtentMapEntry {
            logical_offset: 4,
            size: 2,
            target: ExtentMapTarget::Data {
                source,
                source_offset: 4,
            },
        },
    ])?;
    let mut data: Vec<u8> = vec![0xff; 6];

    let read_count: usize = extent_map.read_at(0, &mut data)?;

    assert_eq!(read_count, 6);
    assert_eq!(data, [0x62, 0x63, 0x00, 0x00, 0x65, 0x66]);
    Ok(())
}

#[test]
fn test_rejects_non_contiguous_extents() {
    let result = ExtentMapDataSource::new(vec![ExtentMapEntry {
        logical_offset: 1,
        size: 2,
        target: ExtentMapTarget::Zero,
    }]);

    assert!(result.is_err());
}

#[test]
fn extent_map_rejects_empty_and_overflowing_extents() {
    let empty = ExtentMapDataSource::new(vec![ExtentMapEntry {
        logical_offset: 0,
        size: 0,
        target: ExtentMapTarget::Zero,
    }]);
    assert!(empty.is_err());

    let overflowing = ExtentMapDataSource::new(vec![
        ExtentMapEntry {
            logical_offset: 0,
            size: u64::MAX,
            target: ExtentMapTarget::Zero,
        },
        ExtentMapEntry {
            logical_offset: u64::MAX,
            size: 1,
            target: ExtentMapTarget::Zero,
        },
    ]);
    assert!(overflowing.is_err());
}

#[test]
fn extent_map_reads_from_the_middle() -> Result<(), DriverError> {
    let extent_map = ExtentMapDataSource::new(vec![
        ExtentMapEntry {
            logical_offset: 0,
            size: 3,
            target: ExtentMapTarget::Zero,
        },
        ExtentMapEntry {
            logical_offset: 3,
            size: 3,
            target: ExtentMapTarget::Data {
                source: memory(b"abcdef"),
                source_offset: 2,
            },
        },
    ])?;
    let mut data: Vec<u8> = vec![0xff; 3];

    assert_eq!(extent_map.size()?, 6);
    assert_eq!(extent_map.read_at(2, &mut data)?, 3);
    assert_eq!(data, [0x00, 0x63, 0x64]);
    assert_eq!(extent_map.read_at(6, &mut data)?, 0);
    assert_eq!(extent_map.telemetry_name(), "extent_map");
    assert_eq!(extent_map.origin_path(), None);
    Ok(())
}

#[test]
fn empty_extent_map_holds_nothing() -> Result<(), DriverError> {
    let extent_map = ExtentMapDataSource::new(vec![])?;

    assert_eq!(extent_map.size()?, 0);
    assert_eq!(extent_map.read_all()?, b"");
    Ok(())
}

#[test]
fn test_stats_record_reads() -> Result<(), DriverError> {
    let source: DataSourceReference = memory(b"abcdef");
    let observed = ObservedDataSource::new(source);
    let mut data: Vec<u8> = vec![0; 2];

    observed.read_at(0, &mut data)?;
    observed.read_at(3, &mut data)?;

    let snapshot: DataSourceReadStatsSnapshot = observed.stats().snapshot();

    assert_eq!(snapshot.read_count, 2);
    assert_eq!(snapshot.read_bytes, 4);
    assert_eq!(snapshot.max_read_size, 2);
    assert_eq!(snapshot.request_offset_distance_bytes, 1);
    Ok(())
}

#[test]
fn observed_source_reads_its_inner_source() -> Result<(), DriverError> {
    let (source, _) = counting(b"abcdef".to_vec());
    let observed = ObservedDataSource::new(source);

    assert_eq!(observed.read_all()?, b"abcdef");
    assert_eq!(observed.size()?, 6);
    assert_eq!(observed.origin_path(), Some("/data/image.raw"));
    assert!(observed.stats().snapshot().read_count >= 1);
    Ok(())
}

#[test]
fn statistics_accumulate() {
    let mut state = DataSourceReadStatsState::new();
    state.record_read(0, 4, 5);
    state.record_read(10, 8, 7);
    state.record_read(2, 1, 0);

    let snapshot = state.snapshot();

    assert_eq!(snapshot.read_count, 3);
    assert_eq!(snapshot.read_bytes, 13);
    assert_eq!(snapshot.max_read_size, 8);
    assert_eq!(snapshot.request_offset_distance_bytes, 6 + 16);
    assert_eq!(snapshot.total_read_micros, 12);
    assert_eq!(snapshot.average_read_size, 4);
    assert!(snapshot.average_read_size <= snapshot.max_read_size as u64);
    assert_eq!(snapshot.max_offset_distance_bytes, 16);
}

#[test]
fn test_probe_cache_reuses_cached_window() -> Result<(), DriverError> {
    let (source, read_count) = counting(vec![0x41; 8192]);
    let cached = ProbeCachedDataSource::with_options(source, 4096, 8192);
    let mut data: Vec<u8> = vec![0; 16];

    cached.read_at(0, &mut data)?;
    cached.read_at(32, &mut data)?;

    assert_eq!(read_count.load(Ordering::SeqCst), 1);
    Ok(())
}

#[test]
fn test_probe_cache_bypasses_large_offsets() -> Result<(), DriverError> {
    let (source, read_count) = counting(vec![0x41; 8192]);
    let cached = ProbeCachedDataSource::with_options(source, 4096, 4096);
    let mut data: Vec<u8> = vec![0; 16];

    cached.read_at(5000, &mut data)?;
    cached.read_at(5000, &mut data)?;

    assert_eq!(read_count.load(Ordering::SeqCst), 2);
    Ok(())
}

#[test]
fn probe_cache_is_transparent() -> Result<(), DriverError> {
    let data: Vec<u8> = (0..20000u32).map(|value| (value % 251) as u8).collect();
    let cached = ProbeCachedDataSource::with_options(memory(&data), 4096, 16384);

    assert_eq!(cached.read_all()?, data);
    for offset in [0u64, 1, 4095, 4096, 8190, 16380, 16384, 19998] {
        let mut part: Vec<u8> = vec![0; 10];
        let read_count = cached.read_at(offset, &mut part)?;
        let end = data.len().min(offset as usize + 10);
        assert!(read_count > 0);
        assert_eq!(
            &part[..read_count],
            &data[offset as usize..offset as usize + read_count]
        );
        assert!(offset as usize + read_count <= end);
        let exact: usize = end - offset as usize;
        cached.read_exact_at(offset, &mut part[..exact])?;
        assert_eq!(&part[..exact], &data[offset as usize..end]);
    }
    assert_eq!(ProbeCachedDataSource::new(memory(&data)).read_all()?, data);
    Ok(())
}

#[test]
fn test_read_across_segments() -> Result<(), DriverError> {
    let segment_1: DataSourceReference = memory(b"abc");
    let segment_2: DataSourceReference = memory(b"defg");
    let source = SegmentedDataSource::new(vec![
        SegmentedSourceSegment {
            logical_offset: 0,
            size: 3,
            source: segment_1,
            source_offset: 0,
        },
        SegmentedSourceSegment {
            logical_offset: 3,
            size: 4,
            source: segment_2,
            source_offset: 0,
        },
    ])?;
    let mut data: Vec<u8> = vec![0; 4];

    let read_count: usize = source.read_at(2, &mut data)?;

    assert_eq!(read_count, 4);
    assert_eq!(data, b"cdef");
    Ok(())
}

#[test]
fn test_rejects_non_contiguous_segments() {
    let segment: DataSourceReference = memory(b"abc");
    let result = SegmentedDataSource::new(vec![SegmentedSourceSegment {
        logical_offset: 1,
        size: 3,
        source: segment,
        source_offset: 0,
    }]);

    assert!(result.is_err());
}

#[test]
fn segments_concatenate() -> Result<(), DriverError> {
    let source = SegmentedDataSource::new(vec![
        SegmentedSourceSegment {
            logical_offset: 0,
            size: 2,
            source: memory(b"xxab"),
            source_offset: 2,
        },
        SegmentedSourceSegment {
            logical_offset: 2,
            size: 2,
            source: memory(b"cdxx"),
            source_offset: 0,
        },
    ])?;

    assert_eq!(source.size()?, 4);
    assert_eq!(source.read_all()?, b"abcd");
    assert_eq!(source.telemetry_name(), "segmented");
    Ok(())
}

#[test]
fn capabilities_combine_to_the_weakest() {
    let concurrent = DataSourceCapabilities::concurrent(DataSourceSeekCost::Cheap);
    let serialized = DataSourceCapabilities::serialized(DataSourceSeekCost::Expensive);

    assert_eq!(
        combine_data_source_capabilities(&[concurrent, concurrent]).read_concurrency,
        DataSourceReadConcurrency::Concurrent
    );
    let combined = combine_data_source_capabilities(&[concurrent, serialized]);
    assert_eq!(
        combined.read_concurrency,
        DataSourceReadConcurrency::Serialized
    );
    assert_eq!(combined.seek_cost, DataSourceSeekCost::Expensive);
    assert_eq!(
        combine_data_source_capabilities(&[serialized, concurrent]),
        combined
    );
    assert_eq!(
        concurrent.with_preferred_chunk_size(512).preferred_chunk_size,
        Some(512)
    );
    assert_eq!(
        DataSourceCapabilities::new(
            DataSourceReadConcurrency::Serialized,
            DataSourceSeekCost::Cheap
        ),
        DataSourceCapabilities::serialized(DataSourceSeekCost::Cheap)
    );
}

fn trickling(data: &[u8]) -> DataSourceReference {
    Arc::new(SharedDataSource {
        inner: Box::new(TricklingDataSource {
            data: data.to_vec(),
        }),
    })
}

#[test]
fn nothing_is_read_exactly_at_any_offset() -> Result<(), DriverError> {
    let mut data: Vec<u8> = Vec::new();

    memory(b"ab").read_exact_at(u64::MAX, &mut data)?;
    trickling(b"ab").read_exact_at(5, &mut data)?;
    Ok(())
}

#[test]
fn extents_are_read_whole_from_short_reads() -> Result<(), DriverError> {
    let extent_map = ExtentMapDataSource::new(vec![
        ExtentMapEntry {
            logical_offset: 0,
            size: 3,
            target: ExtentMapTarget::Data {
                source: trickling(b"abcdef"),
                source_offset: 2,
            },
        },
        ExtentMapEntry {
            logical_offset: 3,
            size: 2,
            target: ExtentMapTarget::Zero,
        },
    ])?;
    let mut data: Vec<u8> = vec![0xff; 7];

    assert_eq!(extent_map.read_at(1, &mut data)?, 4);
    assert_eq!(data, [b'd', b'e', 0, 0, 0xff, 0xff, 0xff]);
    assert_eq!(extent_map.read_at(5, &mut data)?, 0);
    assert_eq!(extent_map.size()?, 5);
    Ok(())
}

#[test]
fn extents_end_where_their_source_does() -> Result<(), DriverError> {
    let extent_map = ExtentMapDataSource::new(vec![
        ExtentMapEntry {
            logical_offset: 0,
            size: 4,
            target: ExtentMapTarget::Data {
                source: memory(b"ab"),
                source_offset: 0,
            },
        },
        ExtentMapEntry {
            logical_offset: 4,
            size: 2,
            target: ExtentMapTarget::Zero,
        },
    ])?;
    let mut data: Vec<u8> = vec![0xff; 6];

    assert_eq!(extent_map.read_at(0, &mut data)?, 2);
    assert_eq!(data, [0x61, 0x62, 0xff, 0xff, 0xff, 0xff]);
    Ok(())
}

#[test]
fn extents_may_end_beyond_all_offsets() -> Result<(), DriverError> {
    let extent_map = ExtentMapDataSource::new(vec![ExtentMapEntry {
        logical_offset: 0,
        size: 8,
        target: ExtentMapTarget::Data {
            source: memory(b"ab"),
            source_offset: u64::MAX - 2,
        },
    }])?;
    let mut data: Vec<u8> = vec![0; 1];

    assert_eq!(extent_map.read_all()?, b"");
    assert_eq!(
        extent_map.read_at(4, &mut data),
        Err(DriverError::Truncated)
    );
    Ok(())
}

#[test]
fn no_distance_exceeds_the_total() {
    let mut state = DataSourceReadStatsState::new();
    for offset in [0, 4096, 16, u64::MAX, 0] {
        state.record_read(offset, 16, 1);
        let snapshot = state.snapshot();
        assert!(snapshot.max_offset_distance_bytes <= snapshot.request_offset_distance_bytes);
    }
}
