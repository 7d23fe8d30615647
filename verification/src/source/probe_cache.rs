use std::collections::HashMap;
use std::sync::Arc;

use vstd::prelude::*;
use vstd::rwlock::{RwLock, RwLockPredicate};

use super::capabilities::DataSourceCapabilities;
use super::data_source::{Content, DataSource, DataSourceReference, SharedDataSource};
use crate::error::DriverError;

verus! {

/// Size of a cached window where none is specified.
pub const DEFAULT_PROBE_CACHE_WINDOW_SIZE: usize = 4096;

/// End of the cached range where none is specified.
pub const DEFAULT_PROBE_CACHE_LIMIT: u64 = 65536;

/// Predicate of the lock around the windows: every window holds the bytes of the content at its
/// offset, and all of them where the source reads exhaustively.
pub struct WindowsOf {
    pub content: Content,
    pub exhaustive: bool,
    pub window_size: nat,
}

impl WindowsOf {
    /// Whether `window` is what a read of one window at `offset` gives.
    pub open spec fn holds(self, offset: int, window: Seq<u8>) -> bool {
        &&& window.len() <= self.window_size
        &&& self.content.has(offset, window.len() as int)
        &&& window == self.content.window(offset, window.len())
        &&& self.exhaustive ==> window.len() == self.window_size
            || !self.content.bytes.contains_key(offset + window.len())
    }
}

impl RwLockPredicate<HashMap<u64, Arc<Vec<u8>>>> for WindowsOf {
    open spec fn inv(self, v: HashMap<u64, Arc<Vec<u8>>>) -> bool {
        forall|offset: u64|
            #[trigger] v@.contains_key(offset) ==> self.holds(offset as int, v@[offset]@)
    }
}

/// Data source wrapper that caches small probe windows.
pub struct ProbeCachedDataSource {
    inner: DataSourceReference,
    window_size: usize,
    cache_limit: u64,
    windows: RwLock<HashMap<u64, Arc<Vec<u8>>>, WindowsOf>,
}

/// Whether every offset before a readable one is readable too. Where that fails, a cached window
/// ends at the first gap in it.
pub open spec fn gapless(content: Content) -> bool {
    forall|j: int, k: int|
        0 <= j <= k && #[trigger] content.bytes.contains_key(k)
            ==> #[trigger] content.bytes.contains_key(j)
}

/// Whether a request lies in the range that is cached.
pub open spec fn cacheable_range(offset: u64, size: usize, cache_limit: u64) -> bool {
    size > 0 && offset + size <= cache_limit
}

impl ProbeCachedDataSource {
    /// The source that is cached.
    pub closed spec fn spec_inner(&self) -> DataSourceReference {
        self.inner
    }

    /// The size of a cached window.
    pub closed spec fn spec_window_size(&self) -> usize {
        self.window_size
    }

    /// The end of the cached range.
    pub closed spec fn spec_cache_limit(&self) -> u64 {
        self.cache_limit
    }

    #[verifier::type_invariant]
    spec fn well_formed(self) -> bool {
        &&& self.window_size > 0
        &&& self.windows.pred() == (WindowsOf {
            content: self.inner.content(),
            exhaustive: self.inner.exhaustive(),
            window_size: self.window_size as nat,
        })
    }

    /// Creates a new probe cache wrapper with default settings.
    pub fn new(inner: DataSourceReference) -> (source: Self)
        ensures
            source.spec_inner() == inner,
            source.spec_window_size() == DEFAULT_PROBE_CACHE_WINDOW_SIZE,
            source.spec_cache_limit() == DEFAULT_PROBE_CACHE_LIMIT,
    {
        Self::with_options(inner, DEFAULT_PROBE_CACHE_WINDOW_SIZE, DEFAULT_PROBE_CACHE_LIMIT)
    }

    /// Creates a new probe cache wrapper with custom settings.
    pub fn with_options(
        inner: DataSourceReference,
        window_size: usize,
        cache_limit: u64,
    ) -> (source: Self)
        ensures
            source.spec_inner() == inner,
            source.spec_window_size() == (if window_size == 0 {
                1
            } else {
                window_size
            }),
            source.spec_cache_limit() == cache_limit,
    {
        let window_size: usize = if window_size == 0 {
            1
        } else {
            window_size
        };
        let ghost pred = WindowsOf {
            content: inner.content(),
            exhaustive: inner.exhaustive(),
            window_size: window_size as nat,
        };
        let windows: HashMap<u64, Arc<Vec<u8>>> = HashMap::new();
        Self { inner, window_size, cache_limit, windows: RwLock::new(windows, Ghost(pred)) }
    }

    /// Turns the source into a shared reference.
    pub fn into_reference(self) -> (reference: DataSourceReference)
        ensures
            reference.content() == self.content(),
            reference.progresses() == self.progresses(),
            reference.advances() == self.advances(),
            reference.exhaustive() == self.exhaustive(),
            forall|offset: int, length: int| #[trigger]
                reference.answers(offset, length) == self.answers(offset, length),
            reference.measurable() == self.measurable(),
            reference.spec_capabilities() == self.spec_capabilities(),
            reference.spec_telemetry_name() == self.spec_telemetry_name(),
            reference.spec_origin_path() == self.spec_origin_path(),
    {
        Arc::new(SharedDataSource { inner: Box::new(self) })
    }

    fn cacheable(&self, offset: u64, size: usize) -> (cacheable: bool)
        ensures
            cacheable == cacheable_range(offset, size, self.spec_cache_limit()),
    {
        if size == 0 {
            return false;
        }
        match offset.checked_add(size as u64) {
            Some(end_offset) => end_offset <= self.cache_limit,
            None => false,
        }
    }

    fn read_window(&self, window_offset: u64) -> (result: Result<Arc<Vec<u8>>, DriverError>)
        ensures
            result matches Ok(window) ==> (WindowsOf {
                content: self.spec_inner().content(),
                exhaustive: self.spec_inner().exhaustive(),
                window_size: self.spec_window_size() as nat,
            }).holds(window_offset as int, window@),
            self.spec_inner().exhaustive() ==> result is Ok,
    {
        proof {
            use_type_invariant(self);
        }
        broadcast use vstd::std_specs::hash::group_hash_axioms;

        let ghost pred = self.windows.pred();
        let handle = self.windows.acquire_read();
        let cached: Option<Arc<Vec<u8>>> = match handle.borrow().get(&window_offset) {
            Some(window) => Some(window.clone()),
            None => None,
        };
        handle.release_read();
        if let Some(window) = cached {
            return Ok(window);
        }
        let mut data: Vec<u8> = vec![0; self.window_size];
        let read_count: usize = match self.inner.read_at(window_offset, data.as_mut_slice()) {
            Ok(read_count) => read_count,
            Err(error) => return Err(error),
        };
        data.truncate(read_count);
        assert(data@ =~= self.inner.content().window(window_offset as int, read_count as nat));
        let window: Arc<Vec<u8>> = Arc::new(data);

        let (mut windows, write_handle) = self.windows.acquire_write();
        let stored: Option<Arc<Vec<u8>>> = match windows.get(&window_offset) {
            Some(window) => Some(window.clone()),
            None => None,
        };
        match stored {
            Some(stored) => {
                write_handle.release_write(windows);
                Ok(stored)
            },
            None => {
                windows.insert(window_offset, window.clone());
                write_handle.release_write(windows);
                Ok(window)
            },
        }
    }
}

impl DataSource for ProbeCachedDataSource {
    open spec fn content(&self) -> Content {
        self.spec_inner().content()
    }

    open spec fn progresses(&self) -> bool {
        self.exhaustive()
    }

    open spec fn exhaustive(&self) -> bool {
        self.spec_inner().exhaustive() && gapless(self.spec_inner().content())
    }

    open spec fn answers(&self, offset: int, length: int) -> bool {
        offset + length > self.spec_cache_limit() && self.spec_inner().answers(offset, length)
    }

    open spec fn measurable(&self) -> bool {
        self.spec_inner().measurable()
    }

    open spec fn spec_capabilities(&self) -> DataSourceCapabilities {
        self.spec_inner().spec_capabilities()
    }

    open spec fn spec_telemetry_name(&self) -> Option<Seq<char>> {
        self.spec_inner().spec_telemetry_name()
    }

    open spec fn spec_origin_path(&self) -> Option<Seq<char>> {
        self.spec_inner().spec_origin_path()
    }

    fn read_at(&self, offset: u64, buf: &mut [u8]) -> (result: Result<usize, DriverError>) {
        proof {
            use_type_invariant(self);
        }
        if !self.cacheable(offset, buf.len()) {
            assert(self.answers(offset as int, buf@.len() as int) ==> self.inner.answers(
                offset as int,
                buf@.len() as int,
            ));
            return self.inner.read_at(offset, buf);
        }
        let length: usize = buf.len();
        let mut written: usize = 0;
        let ghost content = self.inner.content();

        while written < length
            invariant
                written <= length,
                length == buf@.len(),
                length == old(buf)@.len(),
                offset + length <= u64::MAX,
                offset + length <= self.spec_cache_limit(),
                self.window_size > 0,
                content == self.inner.content(),
                content.has(offset as int, written as int),
                forall|k: int| 0 <= k < written ==> buf@[k] == content.bytes[offset + k],
                forall|k: int| written <= k < length ==> buf@[k] == old(buf)@[k],
            ensures
                self.exhaustive() ==> written == length || !content.bytes.contains_key(
                    offset + written,
                ),
            decreases length - written,
        {
            let absolute_offset: u64 = offset + written as u64;
            let window_size: u64 = self.window_size as u64;
            assert(absolute_offset % window_size <= absolute_offset && absolute_offset % window_size
                < window_size) by (nonlinear_arith)
                requires
                    window_size > 0,
            ;
            let window_inner_offset: usize = (absolute_offset % window_size) as usize;
            let window_offset: u64 = absolute_offset - window_inner_offset as u64;
            let window: Arc<Vec<u8>> = match self.read_window(window_offset) {
                Ok(window) => window,
                Err(error) => {
                    assert(!self.answers(offset as int, length as int));
                    return Err(error);
                },
            };
            let ghost bytes = window@;

            let window_length: usize = window.len();

            if window_inner_offset >= window_length {
                proof {
                    if self.exhaustive() && content.bytes.contains_key(absolute_offset as int) {
                        assert(content.bytes.contains_key(window_offset + bytes.len()));
                    }
                }
                break;
            }
            let rest: usize = window_length - window_inner_offset;
            let available: usize = if rest < length - written {
                rest
            } else {
                length - written
            };
            let ghost before = buf@;
            let mut index: usize = 0;
            while index < available
                invariant
                    index <= available,
                    written + available <= length,
                    length == buf@.len(),
                    length == before.len(),
                    length == old(buf)@.len(),
                    window_inner_offset + available <= window_length,
                    window_length == bytes.len(),
                    bytes == window@,
                    forall|k: int| 0 <= k < written ==> buf@[k] == before[k],
                    forall|k: int| written + index <= k < length ==> buf@[k] == before[k],
                    forall|k: int|
                        written <= k < written + index ==> buf@[k] == bytes[window_inner_offset + (k
                            - written)],
                decreases available - index,
            {
                buf[written + index] = window[window_inner_offset + index];
                index += 1;
            }
            proof {
                assert forall|k: int| offset <= k < offset + written + available implies
                    #[trigger] content.bytes.contains_key(k) by {
                    if k >= absolute_offset {
                        assert(window_offset <= k < window_offset + bytes.len());
                    }
                }
                assert forall|k: int| 0 <= k < written + available implies buf@[k]
                    == content.bytes[offset + k] by {
                    if k >= written {
                        assert(bytes[window_inner_offset + (k - written)]
                            == content.bytes[window_offset + (window_inner_offset + (k - written))]);
                    } else {
                        assert(buf@[k] == before[k]);
                    }
                }
            }
            written += available;

            if window_length < self.window_size {
                break;
            }
        }
        assert(buf@.take(written as int) =~= content.window(offset as int, written as nat));
        assert(buf@.skip(written as int) =~= old(buf)@.skip(written as int));
        Ok(written)
    }

    fn size(&self) -> (result: Result<u64, DriverError>) {
        self.inner.size()
    }

    fn capabilities(&self) -> (capabilities: DataSourceCapabilities) {
        self.inner.capabilities()
    }

    fn telemetry_name(&self) -> (name: &'static str) {
        self.inner.telemetry_name()
    }

    fn origin_path(&self) -> (path: Option<&str>) {
        self.inner.origin_path()
    }
}

} // verus!
