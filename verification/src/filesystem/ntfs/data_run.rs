//! Data runs of non-resident attributes.

use vstd::arithmetic::power::{lemma_pow_positive, pow};
use vstd::prelude::*;

use crate::bytes::holds_le;
use crate::error::DriverError;
use crate::filesystem::extents::{extent_places, FileExtent};

verus! {

/// A number of clusters of an attribute that are stored together, or not at all.
#[derive(Clone, Copy, Debug, PartialEq, Eq, Structural)]
pub struct NtfsDataRun {
    pub logical_cluster_number: u64,
    pub physical_cluster_number: u64,
    pub number_of_clusters: u64,
    pub is_sparse: bool,
}

/// The number of values that a number of bytes can have.
pub open spec fn byte_range(count: nat) -> nat
    decreases count,
{
    if count == 0 {
        1
    } else {
        256 * byte_range((count - 1) as nat)
    }
}

/// The little-endian value of a number of bytes.
pub open spec fn unsigned_value(data: Seq<u8>, start: int, count: nat) -> nat
    decreases count,
{
    if count == 0 {
        0
    } else {
        data[start] as nat + 256 * unsigned_value(data, start + 1, (count - 1) as nat)
    }
}

/// The little-endian value of a number of bytes in two's complement.
pub open spec fn signed_value(data: Seq<u8>, start: int, count: nat) -> int {
    if count > 0 && data[start + count - 1] >= 0x80 {
        unsigned_value(data, start, count) - byte_range(count)
    } else {
        unsigned_value(data, start, count) as int
    }
}

/// The value of bytes lies where its highest byte says.
proof fn lemma_unsigned_value(data: Seq<u8>, start: int, count: nat)
    requires
        0 < count,
    ensures
        data[start + count - 1] * byte_range((count - 1) as nat) <= unsigned_value(
            data,
            start,
            count,
        ) < (data[start + count - 1] + 1) * byte_range((count - 1) as nat),
        0 < byte_range((count - 1) as nat),
    decreases count,
{
    if count > 1 {
        let top = data[start + count - 1] as int;
        let rest = (count - 1) as nat;
        lemma_unsigned_value(data, start + 1, rest);
        let value = unsigned_value(data, start + 1, rest) as int;
        let range = byte_range((count - 2) as nat) as int;
        assert(data[start + 1 + rest - 1] == top);
        assert(byte_range(rest) == 256 * range);
        assert(top * (256 * range) <= data[start] + 256 * value < (top + 1) * (256 * range))
            by (nonlinear_arith)
            requires
                top * range <= value < (top + 1) * range,
                0 <= data[start] < 256,
        ;
    } else {
        let top = data[start + count - 1] as int;
        let range = byte_range((count - 1) as nat) as int;
        assert(unsigned_value(data, start + 1, 0) == 0);
        assert(unsigned_value(data, start, count) == top);
        assert(top * range == top && (top + 1) * range == top + 1) by (nonlinear_arith)
            requires
                range == 1,
        ;
    }
}

/// The number of values that up to eight bytes can have.
proof fn lemma_byte_range(count: nat)
    requires
        count <= 8,
    ensures
        0 < byte_range(count) <= 0x1_0000_0000_0000_0000,
{
    reveal_with_fuel(byte_range, 9);
}

/// A cluster number as it is kept: negative ones in two's complement.
pub open spec fn cluster_number(value: int) -> u64 {
    if value < 0 {
        (value + 0x1_0000_0000_0000_0000) as u64
    } else {
        value as u64
    }
}

/// The data runs from an offset on, after those before it. A data run gives the sizes of its two
/// numbers, its number of clusters and the distance to the first cluster of the data run before
/// it.
pub open spec fn runs_from(
    data: Seq<u8>,
    offset: int,
    logical: int,
    physical: int,
    runs: Seq<NtfsDataRun>,
) -> Result<Seq<NtfsDataRun>, DriverError>
    decreases data.len() - offset,
{
    let count_size = (data[offset] % 16) as int;
    let number_size = (data[offset] / 16) as int;
    let size = 1 + count_size + number_size;
    if offset >= data.len() || count_size == 0 {
        Ok(runs)
    } else if offset + size > data.len() {
        Err(DriverError::OutOfBounds)
    } else if count_size > 8 || number_size > 8 {
        Err(DriverError::Unsupported)
    } else {
        let count = unsigned_value(data, offset + 1, count_size as nat);
        let next = physical + signed_value(data, offset + 1 + count_size, number_size as nat);
        if !(i64::MIN <= next <= i64::MAX) || logical + count > u64::MAX {
            Err(DriverError::Overflow)
        } else {
            runs_from(
                data,
                offset + size,
                logical + count,
                next,
                runs.push(
                    NtfsDataRun {
                        logical_cluster_number: logical as u64,
                        physical_cluster_number: if number_size == 0 {
                            0
                        } else {
                            cluster_number(next)
                        },
                        number_of_clusters: count as u64,
                        is_sparse: number_size == 0,
                    },
                ),
            )
        }
    }
}

/// The extents of data runs from `index` on, after those before it. Data ends with the attribute.
pub open spec fn run_extents_from(
    cluster_size: u32,
    data_size: u64,
    runs: Seq<NtfsDataRun>,
    index: int,
    extents: Seq<FileExtent>,
) -> Result<Seq<FileExtent>, DriverError>
    decreases runs.len() - index,
{
    let start = runs[index].logical_cluster_number * cluster_size;
    let length = runs[index].number_of_clusters * cluster_size;
    let rest = if start < data_size {
        data_size - start
    } else {
        0
    };
    let size = if length < rest {
        length
    } else {
        rest
    };
    if index >= runs.len() {
        Ok(extents)
    } else if start > u64::MAX {
        Err(DriverError::Overflow)
    } else if size == 0 {
        run_extents_from(cluster_size, data_size, runs, index + 1, extents)
    } else if !runs[index].is_sparse && runs[index].physical_cluster_number * cluster_size
        > u64::MAX {
        Err(DriverError::Overflow)
    } else {
        run_extents_from(
            cluster_size,
            data_size,
            runs,
            index + 1,
            extents.push(
                FileExtent {
                    logical_offset: start as u64,
                    size: size as u64,
                    offset: if runs[index].is_sparse {
                        None
                    } else {
                        Some((runs[index].physical_cluster_number * cluster_size) as u64)
                    },
                },
            ),
        )
    }
}

/// Bytes that hold a value, the lowest one first, are read as that value.
pub proof fn lemma_unsigned_stored(data: Seq<u8>, start: int, count: nat, value: int)
    requires
        holds_le(data, start, count, value),
    ensures
        unsigned_value(data, start, count) == value,
        0 <= value < pow(256, count),
    decreases count,
{
    reveal(pow);
    if count > 0 {
        lemma_unsigned_stored(data, start + 1, (count - 1) as nat, value / 256);
    }
}

/// Bytes that hold a value modulo the number of values that they can have are read as that value,
/// from the lowest negative one to the highest positive one: they are in two's complement.
pub proof fn lemma_signed_stored(data: Seq<u8>, start: int, count: nat, value: int)
    requires
        0 < count,
        -pow(256, count) <= 2 * value < pow(256, count),
        holds_le(
            data,
            start,
            count,
            if value < 0 {
                value + pow(256, count)
            } else {
                value
            },
        ),
    ensures
        signed_value(data, start, count) == value,
{
    let stored = if value < 0 {
        value + pow(256, count)
    } else {
        value
    };
    let top = data[start + count - 1] as int;
    let range = pow(256, (count - 1) as nat);
    lemma_unsigned_stored(data, start, count, stored);
    lemma_unsigned_value(data, start, count);
    lemma_byte_power(count);
    lemma_byte_power((count - 1) as nat);
    reveal(pow);
    if top >= 0x80 {
        assert(128 * range <= top * range) by (nonlinear_arith)
            requires
                128 <= top,
                0 < range,
        ;
    } else {
        assert((top + 1) * range <= 128 * range) by (nonlinear_arith)
            requires
                top < 128,
                0 < range,
        ;
    }
}

proof fn lemma_byte_power(count: nat)
    ensures
        byte_range(count) == pow(256, count),
        0 < pow(256, count),
    decreases count,
{
    reveal(pow);
    lemma_pow_positive(256, count);
    if count > 0 {
        lemma_byte_power((count - 1) as nat);
    }
}

/// Whether data runs are stored from an offset on: for each a byte with the sizes of two numbers,
/// the number of its clusters, and the distance from the first cluster of the one stored before it.
/// One that is not stored has no distance. Behind the last one the data ends, or a zero follows.
pub open spec fn holds_runs(
    data: Seq<u8>,
    offset: int,
    logical: int,
    physical: int,
    runs: Seq<NtfsDataRun>,
    count_sizes: Seq<nat>,
    distance_sizes: Seq<nat>,
) -> bool
    decreases runs.len(),
{
    if runs.len() == 0 {
        offset >= data.len() || data[offset] % 16 == 0
    } else {
        let run = runs[0];
        let a = count_sizes[0];
        let b = distance_sizes[0];
        let place = if run.is_sparse {
            physical
        } else {
            run.physical_cluster_number as int
        };
        let distance = place - physical;
        &&& 1 <= a <= 8
        &&& b <= 8
        &&& 0 <= offset
        &&& offset + 1 + a + b <= data.len()
        &&& data[offset] == 16 * b + a
        &&& run.logical_cluster_number == logical
        &&& logical + run.number_of_clusters <= u64::MAX
        &&& holds_le(data, offset + 1, a, run.number_of_clusters as int)
        &&& run.is_sparse <==> b == 0
        &&& run.is_sparse ==> run.physical_cluster_number == 0
        &&& !run.is_sparse ==> {
            &&& place <= i64::MAX
            &&& -pow(256, b) <= 2 * distance < pow(256, b)
            &&& holds_le(
                data,
                offset + 1 + a,
                b,
                if distance < 0 {
                    distance + pow(256, b)
                } else {
                    distance
                },
            )
        }
        &&& holds_runs(
            data,
            offset + 1 + a + b,
            logical + run.number_of_clusters,
            place,
            runs.skip(1),
            count_sizes.skip(1),
            distance_sizes.skip(1),
        )
    }
}

/// Data runs that are stored are read back, wherever each of them lies: before or behind the one
/// before it.
pub proof fn lemma_runs_stored(
    data: Seq<u8>,
    offset: int,
    logical: int,
    physical: int,
    runs: Seq<NtfsDataRun>,
    count_sizes: Seq<nat>,
    distance_sizes: Seq<nat>,
    before: Seq<NtfsDataRun>,
)
    requires
        0 <= logical,
        0 <= physical <= i64::MAX,
        holds_runs(data, offset, logical, physical, runs, count_sizes, distance_sizes),
    ensures
        runs_from(data, offset, logical, physical, before) == Ok::<Seq<NtfsDataRun>, DriverError>(
            before + runs,
        ),
    decreases runs.len(),
{
    if runs.len() == 0 {
        assert(before + runs =~= before);
    } else {
        let run = runs[0];
        let a = count_sizes[0];
        let b = distance_sizes[0];
        assert(data[offset] % 16 == a && data[offset] / 16 == b);
        lemma_unsigned_stored(data, offset + 1, a, run.number_of_clusters as int);
        if !run.is_sparse {
            lemma_signed_stored(
                data,
                offset + 1 + a,
                b,
                run.physical_cluster_number - physical,
            );
        }
        let place = if run.is_sparse {
            physical
        } else {
            run.physical_cluster_number as int
        };
        lemma_runs_stored(
            data,
            offset + 1 + a + b,
            logical + run.number_of_clusters,
            place,
            runs.skip(1),
            count_sizes.skip(1),
            distance_sizes.skip(1),
            before.push(run),
        );
        assert(before.push(run) + runs.skip(1) =~= before + runs);
    }
}

/// Every byte of an attribute that a data run covers is stored in that run: as far behind its first
/// cluster as the byte lies behind the first one that the run covers.
pub proof fn lemma_run_places(
    cluster_size: u32,
    data_size: u64,
    runs: Seq<NtfsDataRun>,
    index: int,
    offset: int,
)
    requires
        0 <= index < runs.len(),
        run_extents_from(cluster_size, data_size, runs, 0, Seq::empty()) is Ok,
        0 <= offset < data_size,
        runs[index].logical_cluster_number * cluster_size <= offset < (
        runs[index].logical_cluster_number + runs[index].number_of_clusters) * cluster_size,
    ensures
        exists|i: int|
            0 <= i < run_extents_from(
                cluster_size,
                data_size,
                runs,
                0,
                Seq::empty(),
            )->Ok_0.len() && extent_places(
                #[trigger] run_extents_from(
                    cluster_size,
                    data_size,
                    runs,
                    0,
                    Seq::empty(),
                )->Ok_0[i],
                offset,
                if runs[index].is_sparse {
                    None
                } else {
                    Some(
                        runs[index].physical_cluster_number * cluster_size + (offset
                            - runs[index].logical_cluster_number * cluster_size),
                    )
                },
            ),
{
    lemma_run_places_from(cluster_size, data_size, runs, 0, Seq::empty(), index, offset);
}

proof fn lemma_run_places_from(
    cluster_size: u32,
    data_size: u64,
    runs: Seq<NtfsDataRun>,
    from: int,
    extents: Seq<FileExtent>,
    index: int,
    offset: int,
)
    requires
        0 <= from <= index < runs.len(),
        run_extents_from(cluster_size, data_size, runs, from, extents) is Ok,
        0 <= offset < data_size,
        runs[index].logical_cluster_number * cluster_size <= offset < (
        runs[index].logical_cluster_number + runs[index].number_of_clusters) * cluster_size,
    ensures
        exists|i: int|
            0 <= i < run_extents_from(
                cluster_size,
                data_size,
                runs,
                from,
                extents,
            )->Ok_0.len() && extent_places(
                #[trigger] run_extents_from(
                    cluster_size,
                    data_size,
                    runs,
                    from,
                    extents,
                )->Ok_0[i],
                offset,
                if runs[index].is_sparse {
                    None
                } else {
                    Some(
                        runs[index].physical_cluster_number * cluster_size + (offset
                            - runs[index].logical_cluster_number * cluster_size),
                    )
                },
            ),
    decreases runs.len() - from,
{
    let all = run_extents_from(cluster_size, data_size, runs, from, extents)->Ok_0;
    let run = runs[from];
    let start = run.logical_cluster_number * cluster_size;
    let length = run.number_of_clusters * cluster_size;
    let rest = if start < data_size {
        data_size - start
    } else {
        0
    };
    let size = if length < rest {
        length
    } else {
        rest
    };
    assert((run.logical_cluster_number + run.number_of_clusters) * cluster_size == start + length)
        by (nonlinear_arith)
        requires
            start == run.logical_cluster_number * cluster_size,
            length == run.number_of_clusters * cluster_size,
    ;
    let extent = FileExtent {
        logical_offset: start as u64,
        size: size as u64,
        offset: if run.is_sparse {
            None
        } else {
            Some((run.physical_cluster_number * cluster_size) as u64)
        },
    };
    if from < index {
        if size == 0 {
            lemma_run_places_from(
                cluster_size,
                data_size,
                runs,
                from + 1,
                extents,
                index,
                offset,
            );
        } else {
            lemma_run_places_from(
                cluster_size,
                data_size,
                runs,
                from + 1,
                extents.push(extent),
                index,
                offset,
            );
        }
    } else {
        assert(0 <= start) by (nonlinear_arith)
            requires
                start == run.logical_cluster_number * cluster_size,
        ;
        assert(0 <= run.physical_cluster_number * cluster_size) by (nonlinear_arith);
        lemma_run_extents_kept(cluster_size, data_size, runs, from + 1, extents.push(extent));
        let i = extents.len() as int;
        assert(extents.push(extent)[i] == extent);
        assert(all[i] == extent);
    }
}

/// The extents that were found first stay.
proof fn lemma_run_extents_kept(
    cluster_size: u32,
    data_size: u64,
    runs: Seq<NtfsDataRun>,
    from: int,
    extents: Seq<FileExtent>,
)
    requires
        0 <= from,
    ensures
        run_extents_from(cluster_size, data_size, runs, from, extents) matches Ok(all) ==> {
            &&& extents.len() <= all.len()
            &&& forall|i: int| 0 <= i < extents.len() ==> #[trigger] all[i] == extents[i]
        },
    decreases runs.len() - from,
{
    if from < runs.len() {
        let run = runs[from];
        let start = run.logical_cluster_number * cluster_size;
        let length = run.number_of_clusters * cluster_size;
        let rest = if start < data_size {
            data_size - start
        } else {
            0
        };
        let size = if length < rest {
            length
        } else {
            rest
        };
        let extent = FileExtent {
            logical_offset: start as u64,
            size: size as u64,
            offset: if run.is_sparse {
                None
            } else {
                Some((run.physical_cluster_number * cluster_size) as u64)
            },
        };
        lemma_run_extents_kept(cluster_size, data_size, runs, from + 1, extents);
        lemma_run_extents_kept(cluster_size, data_size, runs, from + 1, extents.push(extent));
        if let Ok(all) = run_extents_from(
            cluster_size,
            data_size,
            runs,
            from + 1,
            extents.push(extent),
        ) {
            assert forall|i: int| 0 <= i < extents.len() implies #[trigger] all[i]
                == extents[i] by {
                assert(extents.push(extent)[i] == extents[i]);
            }
        }
    }
}

/// No extent of an attribute goes beyond its data, and each is the part of a data run.
pub proof fn lemma_run_extents_within(
    cluster_size: u32,
    data_size: u64,
    runs: Seq<NtfsDataRun>,
    from: int,
    extents: Seq<FileExtent>,
)
    requires
        0 <= from,
        forall|i: int|
            0 <= i < extents.len() ==> (#[trigger] extents[i]).logical_offset + extents[i].size
                <= data_size && 0 < extents[i].size,
    ensures
        run_extents_from(cluster_size, data_size, runs, from, extents) matches Ok(all)
            ==> forall|i: int|
            0 <= i < all.len() ==> (#[trigger] all[i]).logical_offset + all[i].size <= data_size
                && 0 < all[i].size,
    decreases runs.len() - from,
{
    if from < runs.len() {
        let run = runs[from];
        let start = run.logical_cluster_number * cluster_size;
        let length = run.number_of_clusters * cluster_size;
        let rest = if start < data_size {
            data_size - start
        } else {
            0
        };
        let size = if length < rest {
            length
        } else {
            rest
        };
        assert(0 <= start) by (nonlinear_arith)
            requires
                start == run.logical_cluster_number * cluster_size,
        ;
        assert(0 <= length) by (nonlinear_arith)
            requires
                length == run.number_of_clusters * cluster_size,
        ;
        if size == 0 {
            lemma_run_extents_within(cluster_size, data_size, runs, from + 1, extents);
        } else if start <= u64::MAX {
            let extent = FileExtent {
                logical_offset: start as u64,
                size: size as u64,
                offset: if run.is_sparse {
                    None
                } else {
                    Some((run.physical_cluster_number * cluster_size) as u64)
                },
            };
            let more = extents.push(extent);
            assert forall|i: int| 0 <= i < more.len() implies (#[trigger] more[i]).logical_offset
                + more[i].size <= data_size && 0 < more[i].size by {
                if i < extents.len() {
                    assert(more[i] == extents[i]);
                }
            }
            lemma_run_extents_within(cluster_size, data_size, runs, from + 1, more);
        }
    }
}

fn read_unsigned(data: &[u8], start: usize, count: usize) -> (value: u64)
    requires
        start + count <= data@.len(),
        count <= 8,
    ensures
        value == unsigned_value(data@, start as int, count as nat),
{
    let length: usize = data.len();
    let mut value: u64 = 0;
    let mut index: usize = count;
    assert(start + count <= length);
    while index > 0
        invariant
            index <= count <= 8,
            start + count <= length,
            length == data@.len(),
            value == unsigned_value(data@, start + index, (count - index) as nat),
        decreases index,
    {
        let at: usize = start + index - 1;
        proof {
            let done = (count - index) as nat;
            lemma_byte_range(done);
            if done > 0 {
                lemma_unsigned_value(data@, start + index, done);
                let top = data@[start + index + done - 1] as int;
                let range = byte_range((done - 1) as nat) as int;
                assert((top + 1) * range <= 256 * range) by (nonlinear_arith)
                    requires
                        0 <= top < 256,
                        0 < range,
                ;
            }
            lemma_byte_range((done + 1) as nat);
            assert(value < byte_range(done));
            assert(at + 1 == start + index);
            assert(byte_range((done + 1) as nat) == 256 * byte_range(done));
        }
        value = data[at] as u64 + 256 * value;
        index -= 1;
    }
    value
}

fn read_signed(data: &[u8], start: usize, count: usize) -> (value: i64)
    requires
        start + count <= data@.len(),
        0 < count <= 8,
    ensures
        value == signed_value(data@, start as int, count as nat),
{
    let length: usize = data.len();
    let value: u64 = read_unsigned(data, start, count);
    assert(start + count <= length);
    let top: u8 = data[start + (count - 1)];
    proof {
        lemma_byte_range(count as nat);
        lemma_byte_range((count - 1) as nat);
        lemma_unsigned_value(data@, start as int, count as nat);
        let range = byte_range((count - 1) as nat) as int;
        assert(byte_range(count as nat) == 256 * range);
        assert(data@[start + count - 1] == top);
        if top >= 0x80 {
            assert(top * range >= 128 * range && (top + 1) * range <= 256 * range)
                by (nonlinear_arith)
                requires
                    0x80 <= top < 256,
                    0 < range,
            ;
        } else {
            assert((top + 1) * range <= 128 * range) by (nonlinear_arith)
                requires
                    0 <= top < 0x80,
                    0 < range,
            ;
        }
    }
    if top < 0x80 {
        return value as i64;
    }
    let mut largest: u64 = 0;
    let mut index: usize = 0;
    assert(byte_range(0) == 1);
    while index < count
        invariant
            index <= count <= 8,
            largest + 1 == byte_range(index as nat),
        decreases count - index,
    {
        proof {
            lemma_byte_range((index + 1) as nat);
            assert(byte_range((index + 1) as nat) == 256 * byte_range(index as nat));
        }
        largest = 256 * largest + 255;
        index += 1;
    }
    let below: u64 = largest - value;
    -1 - (below as i64)
}

fn keep_cluster_number(value: i64) -> (number: u64)
    ensures
        number == cluster_number(value as int),
{
    if value >= 0 {
        value as u64
    } else {
        let below: i64 = -1 - value;
        u64::MAX - below as u64
    }
}

/// Reads the data runs from an offset on. The first one starts at the given logical cluster.
pub fn read_data_runs(data: &[u8], first_cluster_number: u64, offset: usize) -> (result: Result<
    Vec<NtfsDataRun>,
    DriverError,
>)
    ensures
        match result {
            Ok(runs) => runs_from(
                data@,
                offset as int,
                first_cluster_number as int,
                0,
                Seq::empty(),
            ) == Ok::<Seq<NtfsDataRun>, DriverError>(runs@),
            Err(error) => runs_from(
                data@,
                offset as int,
                first_cluster_number as int,
                0,
                Seq::empty(),
            ) == Err::<Seq<NtfsDataRun>, DriverError>(error),
        },
{
    let ghost whole = runs_from(
        data@,
        offset as int,
        first_cluster_number as int,
        0,
        Seq::empty(),
    );
    let length: usize = data.len();
    let mut runs: Vec<NtfsDataRun> = Vec::new();
    let mut at: usize = offset;
    let mut logical: u64 = first_cluster_number;
    let mut physical: i64 = 0;
    assert(runs@ =~= Seq::<NtfsDataRun>::empty());
    while at < length
        invariant
            length == data@.len(),
            whole == runs_from(
                data@,
                offset as int,
                first_cluster_number as int,
                0,
                Seq::empty(),
            ),
            whole == runs_from(data@, at as int, logical as int, physical as int, runs@),
        decreases length - at,
    {
        let count_size: usize = (data[at] % 16) as usize;
        let number_size: usize = (data[at] / 16) as usize;
        if count_size == 0 {
            return Ok(runs);
        }
        let size: usize = 1 + count_size + number_size;
        if size > length - at {
            return Err(DriverError::OutOfBounds);
        }
        if count_size > 8 || number_size > 8 {
            return Err(DriverError::Unsupported);
        }
        let count: u64 = read_unsigned(data, at + 1, count_size);
        let mut next: i64 = physical;
        let mut number: u64 = 0;
        if number_size > 0 {
            let distance: i64 = read_signed(data, at + 1 + count_size, number_size);
            next = physical.checked_add(distance).ok_or(DriverError::Overflow)?;
            number = keep_cluster_number(next);
        }
        let next_logical: u64 = logical.checked_add(count).ok_or(DriverError::Overflow)?;
        runs.push(
            NtfsDataRun {
                logical_cluster_number: logical,
                physical_cluster_number: number,
                number_of_clusters: count,
                is_sparse: number_size == 0,
            },
        );
        physical = next;
        logical = next_logical;
        at = at + size;
    }
    Ok(runs)
}

/// Determines the extents of data runs.
pub fn make_run_extents(cluster_size: u32, data_size: u64, runs: &Vec<NtfsDataRun>) -> (result:
    Result<Vec<FileExtent>, DriverError>)
    ensures
        match result {
            Ok(extents) => run_extents_from(cluster_size, data_size, runs@, 0, Seq::empty())
                == Ok::<Seq<FileExtent>, DriverError>(extents@),
            Err(error) => run_extents_from(cluster_size, data_size, runs@, 0, Seq::empty())
                == Err::<Seq<FileExtent>, DriverError>(error),
        },
{
    let ghost whole = run_extents_from(cluster_size, data_size, runs@, 0, Seq::empty());
    let mut extents: Vec<FileExtent> = Vec::new();
    let mut index: usize = 0;
    assert(extents@ =~= Seq::<FileExtent>::empty());
    while index < runs.len()
        invariant
            index <= runs@.len(),
            whole == run_extents_from(cluster_size, data_size, runs@, 0, Seq::empty()),
            whole == run_extents_from(cluster_size, data_size, runs@, index as int, extents@),
        decreases runs@.len() - index,
    {
        let run: NtfsDataRun = runs[index];
        let start: u64 = run.logical_cluster_number.checked_mul(cluster_size as u64).ok_or(
            DriverError::Overflow,
        )?;
        let rest: u64 = if start < data_size {
            data_size - start
        } else {
            0
        };
        let size: u64 = match run.number_of_clusters.checked_mul(cluster_size as u64) {
            Some(length) => if length < rest {
                length
            } else {
                rest
            },
            None => rest,
        };
        if size > 0 {
            let stored: Option<u64> = if run.is_sparse {
                None
            } else {
                let stored: u64 = run.physical_cluster_number.checked_mul(
                    cluster_size as u64,
                ).ok_or(DriverError::Overflow)?;
                Some(stored)
            };
            extents.push(FileExtent { logical_offset: start, size, offset: stored });
        }
        index += 1;
    }
    Ok(extents)
}

} // verus!
