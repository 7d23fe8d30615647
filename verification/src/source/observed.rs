use std::sync::Arc;
use std::time::Instant;

use vstd::prelude::*;
use vstd::rwlock::{RwLock, RwLockPredicate};

use super::capabilities::DataSourceCapabilities;
use super::data_source::{Content, DataSource, DataSourceReference, SharedDataSource};
use crate::error::DriverError;

verus! {

/// The monotonic clock instant of the standard library.
#[verifier::external_type_specification]
#[verifier::external_body]
pub struct ExInstant(std::time::Instant);

/// Calls `Instant::now`. Nothing is claimed of the instant: it depends on the time of the call.
#[verifier::external_body]
fn clock_now() -> (instant: Instant) {
    Instant::now()
}

/// Calls `Instant::elapsed`, in microseconds. Nothing is claimed of the duration: it depends on
/// the time of the call.
#[verifier::external_body]
fn elapsed_micros(instant: &Instant) -> (micros: u128) {
    instant.elapsed().as_micros()
}

/// Read statistics snapshot.
#[derive(Clone, Copy, Debug, PartialEq, Eq)]
pub struct DataSourceReadStatsSnapshot {
    /// Number of read operations.
    pub read_count: u64,
    /// Total number of bytes read.
    pub read_bytes: u64,
    /// Average read size.
    pub average_read_size: u64,
    /// Total distance between read requests.
    pub request_offset_distance_bytes: u64,
    /// Average distance between read requests.
    pub average_offset_distance_bytes: u64,
    /// Maximum read size.
    pub max_read_size: usize,
    /// Maximum read distance.
    pub max_offset_distance_bytes: u64,
    /// Total read time in microseconds.
    pub total_read_micros: u128,
    /// Average read time in microseconds.
    pub average_read_micros: u128,
}

/// Accumulated read statistics.
#[derive(Clone, Copy, Debug)]
pub struct DataSourceReadStatsState {
    /// Number of read operations.
    pub read_count: u64,
    /// Total number of bytes read.
    pub read_bytes: u64,
    /// Total distance between read requests.
    pub request_offset_distance_bytes: u64,
    /// Maximum read size.
    pub max_read_size: usize,
    /// Maximum read distance.
    pub max_offset_distance_bytes: u64,
    /// Total read time in microseconds.
    pub total_read_micros: u128,
    /// Offset of the last read.
    pub last_offset: Option<u64>,
    /// Number of bytes of the last read.
    pub last_len: usize,
}

/// The smaller of a value and a limit.
pub open spec fn capped(value: int, limit: int) -> int {
    if value > limit {
        limit
    } else {
        value
    }
}

/// The distance between a read at `offset` and the end of the read before it.
pub open spec fn read_distance(state: DataSourceReadStatsState, offset: u64) -> int {
    match state.last_offset {
        Some(last_offset) => {
            let last_end = capped(last_offset + state.last_len, u64::MAX as int);
            if offset >= last_end {
                offset - last_end
            } else {
                last_end - offset
            }
        },
        None => 0,
    }
}

/// The statistics after one more read. Totals stay at the maximum of their type.
pub open spec fn recorded(
    state: DataSourceReadStatsState,
    offset: u64,
    len: usize,
    micros: u128,
) -> DataSourceReadStatsState {
    let distance = read_distance(state, offset);
    DataSourceReadStatsState {
        read_count: capped(state.read_count + 1, u64::MAX as int) as u64,
        read_bytes: capped(state.read_bytes + len, u64::MAX as int) as u64,
        request_offset_distance_bytes: capped(
            state.request_offset_distance_bytes + distance,
            u64::MAX as int,
        ) as u64,
        max_read_size: if len > state.max_read_size {
            len
        } else {
            state.max_read_size
        },
        max_offset_distance_bytes: if distance > state.max_offset_distance_bytes {
            distance as u64
        } else {
            state.max_offset_distance_bytes
        },
        total_read_micros: capped(state.total_read_micros + micros, u128::MAX as int) as u128,
        last_offset: Some(offset),
        last_len: len,
    }
}

/// The snapshot of the statistics.
pub open spec fn summarized(state: DataSourceReadStatsState) -> DataSourceReadStatsSnapshot {
    DataSourceReadStatsSnapshot {
        read_count: state.read_count,
        read_bytes: state.read_bytes,
        average_read_size: if state.read_count == 0 {
            0
        } else {
            state.read_bytes / state.read_count
        },
        request_offset_distance_bytes: state.request_offset_distance_bytes,
        average_offset_distance_bytes: if state.read_count <= 1 {
            0
        } else {
            (state.request_offset_distance_bytes as int / (state.read_count - 1)) as u64
        },
        max_read_size: state.max_read_size,
        max_offset_distance_bytes: state.max_offset_distance_bytes,
        total_read_micros: state.total_read_micros,
        average_read_micros: if state.read_count == 0 {
            0
        } else {
            state.total_read_micros / state.read_count as u128
        },
    }
}

impl DataSourceReadStatsState {
    /// Creates empty statistics.
    pub fn new() -> (state: Self)
        ensures
            state == (DataSourceReadStatsState {
                read_count: 0,
                read_bytes: 0,
                request_offset_distance_bytes: 0,
                max_read_size: 0,
                max_offset_distance_bytes: 0,
                total_read_micros: 0,
                last_offset: None,
                last_len: 0,
            }),
    {
        Self {
            read_count: 0,
            read_bytes: 0,
            request_offset_distance_bytes: 0,
            max_read_size: 0,
            max_offset_distance_bytes: 0,
            total_read_micros: 0,
            last_offset: None,
            last_len: 0,
        }
    }

    /// Records a read.
    pub fn record_read(&mut self, offset: u64, len: usize, micros: u128)
        ensures
            *final(self) == recorded(*old(self), offset, len, micros),
    {
        self.read_count = self.read_count.saturating_add(1);
        self.read_bytes = self.read_bytes.saturating_add(len as u64);
        if len > self.max_read_size {
            self.max_read_size = len;
        }
        self.total_read_micros = self.total_read_micros.saturating_add(micros);

        if let Some(last_offset) = self.last_offset {
            let last_end: u64 = last_offset.saturating_add(self.last_len as u64);
            let distance: u64 = if offset >= last_end {
                offset - last_end
            } else {
                last_end - offset
            };
            self.request_offset_distance_bytes =
            self.request_offset_distance_bytes.saturating_add(distance);
            if distance > self.max_offset_distance_bytes {
                self.max_offset_distance_bytes = distance;
            }
        }
        self.last_offset = Some(offset);
        self.last_len = len;
    }

    /// Summarizes the statistics.
    pub fn snapshot(&self) -> (snapshot: DataSourceReadStatsSnapshot)
        ensures
            snapshot == summarized(*self),
    {
        DataSourceReadStatsSnapshot {
            read_count: self.read_count,
            read_bytes: self.read_bytes,
            average_read_size: if self.read_count == 0 {
                0
            } else {
                self.read_bytes / self.read_count
            },
            request_offset_distance_bytes: self.request_offset_distance_bytes,
            average_offset_distance_bytes: if self.read_count <= 1 {
                0
            } else {
                self.request_offset_distance_bytes / (self.read_count - 1)
            },
            max_read_size: self.max_read_size,
            max_offset_distance_bytes: self.max_offset_distance_bytes,
            total_read_micros: self.total_read_micros,
            average_read_micros: if self.read_count == 0 {
                0
            } else {
                self.total_read_micros / self.read_count as u128
            },
        }
    }
}

/// No average exceeds its maximum while the totals have not reached the limits of their types.
pub open spec fn stats_consistent(state: DataSourceReadStatsState) -> bool {
    &&& state.read_bytes <= state.read_count * state.max_read_size
    &&& state.read_count == 0 ==> state.last_offset is None
        && state.request_offset_distance_bytes == 0
    &&& state.read_count > 0 ==> state.last_offset is Some && state.request_offset_distance_bytes
        <= (state.read_count - 1) * state.max_offset_distance_bytes
}

/// Recording a read keeps the averages within the maxima, until a total reaches its limit.
pub proof fn lemma_recorded_consistent(
    state: DataSourceReadStatsState,
    offset: u64,
    len: usize,
    micros: u128,
)
    requires
        stats_consistent(state),
        state.read_count < u64::MAX,
    ensures
        stats_consistent(recorded(state, offset, len, micros)),
{
    let next = recorded(state, offset, len, micros);
    let count = state.read_count as int;
    assert(count * state.max_read_size <= count * next.max_read_size) by (nonlinear_arith)
        requires
            0 <= count,
            state.max_read_size <= next.max_read_size,
    ;
    assert((count + 1) * next.max_read_size == count * next.max_read_size + next.max_read_size)
        by (nonlinear_arith);
    if state.read_count > 0 {
        let links = count - 1;
        assert(links * state.max_offset_distance_bytes <= links * next.max_offset_distance_bytes)
            by (nonlinear_arith)
            requires
                0 <= links,
                state.max_offset_distance_bytes <= next.max_offset_distance_bytes,
        ;
        assert(count * next.max_offset_distance_bytes == links * next.max_offset_distance_bytes
            + next.max_offset_distance_bytes) by (nonlinear_arith)
            requires
                links == count - 1,
        ;
    } else {
        assert(0 * next.max_offset_distance_bytes == 0) by (nonlinear_arith);
    }
}

/// Predicate of the lock around the statistics.
pub struct DistancesAddUp;

impl RwLockPredicate<DataSourceReadStatsState> for DistancesAddUp {
    open spec fn inv(self, v: DataSourceReadStatsState) -> bool {
        v.max_offset_distance_bytes <= v.request_offset_distance_bytes
    }
}

/// Whether the averages of a snapshot follow from its totals, and no distance exceeds the total.
pub open spec fn is_summary(snapshot: DataSourceReadStatsSnapshot) -> bool {
    &&& snapshot.average_read_size == (if snapshot.read_count == 0 {
        0
    } else {
        snapshot.read_bytes / snapshot.read_count
    })
    &&& snapshot.average_offset_distance_bytes == (if snapshot.read_count <= 1 {
        0
    } else {
        snapshot.request_offset_distance_bytes as int / (snapshot.read_count - 1)
    })
    &&& snapshot.average_read_micros == (if snapshot.read_count == 0 {
        0
    } else {
        snapshot.total_read_micros / snapshot.read_count as u128
    })
    &&& snapshot.max_offset_distance_bytes <= snapshot.request_offset_distance_bytes
}

/// Recording a read keeps every distance within the total.
pub proof fn lemma_recorded_distances(
    state: DataSourceReadStatsState,
    offset: u64,
    len: usize,
    micros: u128,
)
    requires
        state.max_offset_distance_bytes <= state.request_offset_distance_bytes,
    ensures
        recorded(state, offset, len, micros).max_offset_distance_bytes <= recorded(
            state,
            offset,
            len,
            micros,
        ).request_offset_distance_bytes,
{
}

/// The snapshot of statistics in which no distance exceeds the total is a summary.
pub proof fn lemma_summarized(state: DataSourceReadStatsState)
    requires
        state.max_offset_distance_bytes <= state.request_offset_distance_bytes,
    ensures
        is_summary(summarized(state)),
{
    if state.read_count > 1 {
        let total = state.request_offset_distance_bytes as int;
        let links = state.read_count - 1;
        assert(0 <= total / links <= total) by (nonlinear_arith)
            requires
                0 <= total,
                1 <= links,
        ;
    }
}

/// Mutable statistics collector for observed data sources.
pub struct DataSourceReadStats {
    inner: Arc<RwLock<DataSourceReadStatsState, DistancesAddUp>>,
}

impl Clone for DataSourceReadStats {
    fn clone(&self) -> (stats: Self)
        ensures
            stats == *self,
    {
        DataSourceReadStats { inner: self.inner.clone() }
    }
}

impl Default for DataSourceReadStats {
    fn default() -> (stats: Self) {
        let state = DataSourceReadStatsState::new();
        DataSourceReadStats { inner: Arc::new(RwLock::new(state, Ghost(DistancesAddUp))) }
    }
}

impl DataSourceReadStats {
    fn record_read(&self, offset: u64, len: usize, started_at: &Instant) {
        let micros: u128 = elapsed_micros(started_at);
        let (mut state, handle) = self.inner.acquire_write();
        state.record_read(offset, len, micros);
        handle.release_write(state);
    }

    /// Captures the current statistics snapshot.
    pub fn snapshot(&self) -> (snapshot: DataSourceReadStatsSnapshot)
        ensures
            exists|state: DataSourceReadStatsState| snapshot == #[trigger] summarized(state),
            is_summary(snapshot),
    {
        let handle = self.inner.acquire_read();
        let state: DataSourceReadStatsState = *handle.borrow();
        handle.release_read();
        proof {
            lemma_summarized(state);
        }
        state.snapshot()
    }
}

/// Data source wrapper that records read behavior metrics.
pub struct ObservedDataSource {
    inner: DataSourceReference,
    stats: DataSourceReadStats,
}

impl ObservedDataSource {
    /// The source that is observed.
    pub closed spec fn spec_inner(&self) -> DataSourceReference {
        self.inner
    }

    /// The collector of the statistics.
    pub closed spec fn spec_stats(&self) -> DataSourceReadStats {
        self.stats
    }

    /// Creates a new observed data source.
    pub fn new(inner: DataSourceReference) -> (source: Self)
        ensures
            source.spec_inner() == inner,
    {
        Self { inner, stats: DataSourceReadStats::default() }
    }

    /// Retrieves the shared statistics collector.
    pub fn stats(&self) -> (stats: DataSourceReadStats)
        ensures
            stats == self.spec_stats(),
    {
        self.stats.clone()
    }

    /// Turns the source into a shared reference.
    pub fn into_reference(self) -> (reference: DataSourceReference)
        ensures
            reference.content() == self.content(),
            reference.progresses() == self.progresses(),
            reference.advances() == self.advances(),
            reference.exhaustive() == self.exhaustive(),
            forall|offset: int, length: int| #[trigger]
                reference.answers(offset, length) == self.answers(offset, length),
            reference.measurable() == self.measurable(),
            reference.spec_capabilities() == self.spec_capabilities(),
            reference.spec_telemetry_name() == self.spec_telemetry_name(),
            reference.spec_origin_path() == self.spec_origin_path(),
    {
        Arc::new(SharedDataSource { inner: Box::new(self) })
    }
}

impl DataSource for ObservedDataSource {
    open spec fn content(&self) -> Content {
        self.spec_inner().content()
    }

    open spec fn progresses(&self) -> bool {
        self.spec_inner().progresses()
    }

    open spec fn advances(&self) -> bool {
        self.spec_inner().advances()
    }

    open spec fn exhaustive(&self) -> bool {
        self.spec_inner().exhaustive()
    }

    open spec fn answers(&self, offset: int, length: int) -> bool {
        self.spec_inner().answers(offset, length)
    }

    open spec fn measurable(&self) -> bool {
        self.spec_inner().measurable()
    }

    open spec fn spec_capabilities(&self) -> DataSourceCapabilities {
        self.spec_inner().spec_capabilities()
    }

    open spec fn spec_telemetry_name(&self) -> Option<Seq<char>> {
        self.spec_inner().spec_telemetry_name()
    }

    open spec fn spec_origin_path(&self) -> Option<Seq<char>> {
        self.spec_inner().spec_origin_path()
    }

    fn read_at(&self, offset: u64, buf: &mut [u8]) -> (result: Result<usize, DriverError>) {
        let started_at = clock_now();
        assert(self.exhaustive() == self.inner.exhaustive());
        assert(self.answers(offset as int, buf@.len() as int) == self.inner.answers(
            offset as int,
            buf@.len() as int,
        ));
        let result = self.inner.read_at(offset, buf);
        if let Ok(read_count) = result {
            self.stats.record_read(offset, read_count, &started_at);
        }
        result
    }

    fn size(&self) -> (result: Result<u64, DriverError>) {
        self.inner.size()
    }

    fn capabilities(&self) -> (capabilities: DataSourceCapabilities) {
        self.inner.capabilities()
    }

    fn telemetry_name(&self) -> (name: &'static str) {
        self.inner.telemetry_name()
    }

    fn origin_path(&self) -> (path: Option<&str>) {
        self.inner.origin_path()
    }
}

} // verus!
