//! The order of PDI snapshots and the storage of their extents.

use vstd::prelude::*;

use super::descriptor::{
    end_of, extents_view, images_view, ExtentValues, ImageFileValues, PdiExtent, PdiImageFile,
    PdiSnapshot,
};
use super::sparse::{append_sparse, sparse_failure, sparse_location};
use crate::checks::{first_failure, lemma_first_failure_at};
use crate::error::DriverError;
use crate::image::block_map::absent_location;
use crate::image::extent_list::ExtentList;
use crate::resolver::source_resolver::{never_fails, SourceResolver, SourceResolverReference};
use crate::source::data_source::{DataSource, DataSourceReference};
use crate::source::extent_map::MediaLocation;
use crate::uuid::Uuid;

verus! {

/// The last snapshot with an identifier.
pub open spec fn lookup(snapshots: Seq<PdiSnapshot>, identifier: Uuid) -> Option<PdiSnapshot>
    decreases snapshots.len(),
{
    if snapshots.len() == 0 {
        None
    } else if snapshots.last().identifier == identifier {
        Some(snapshots.last())
    } else {
        lookup(snapshots.drop_last(), identifier)
    }
}

/// The number of ancestors that a snapshot has which has the given parent, of which at most `limit`
/// are followed.
pub open spec fn ancestors(snapshots: Seq<PdiSnapshot>, parent: Option<Uuid>, limit: nat) -> Result<
    nat,
    DriverError,
>
    decreases limit,
{
    match parent {
        None => Ok(0),
        Some(identifier) => match lookup(snapshots, identifier) {
            None => Err(DriverError::Missing),
            Some(snapshot) => if limit == 0 {
                Err(DriverError::Cycle)
            } else {
                match ancestors(snapshots, snapshot.parent_identifier, (limit - 1) as nat) {
                    Err(error) => Err(error),
                    Ok(count) => Ok(count + 1),
                }
            },
        },
    }
}

/// The number of ancestors of the snapshot with an identifier. A snapshot with more ancestors than
/// there are snapshots is its own ancestor.
pub open spec fn depth_of(snapshots: Seq<PdiSnapshot>, identifier: Uuid) -> Result<
    nat,
    DriverError,
> {
    match lookup(snapshots, identifier) {
        None => Err(DriverError::Missing),
        Some(snapshot) => ancestors(snapshots, snapshot.parent_identifier, snapshots.len()),
    }
}

/// Why the ancestors of a snapshot cannot be followed.
pub open spec fn depth_failure(snapshots: Seq<PdiSnapshot>) -> spec_fn(int) -> Option<DriverError> {
    |index: int|
        match depth_of(snapshots, snapshots[index].identifier) {
            Ok(_) => None,
            Err(error) => Some(error),
        }
}

/// The identifiers of those of the first `count` snapshots that have the given number of ancestors.
pub open spec fn with_depth(snapshots: Seq<PdiSnapshot>, count: nat, depth: nat) -> Seq<Uuid>
    decreases count,
{
    if count == 0 {
        Seq::empty()
    } else {
        let identifier = snapshots[count - 1].identifier;
        let front = with_depth(snapshots, (count - 1) as nat, depth);
        if depth_of(snapshots, identifier) == Ok::<nat, DriverError>(depth) {
            front.push(identifier)
        } else {
            front
        }
    }
}

/// The identifiers of the snapshots with fewer than `depths` ancestors, those with fewer ancestors
/// first.
pub open spec fn up_to_depth(snapshots: Seq<PdiSnapshot>, depths: nat) -> Seq<Uuid>
    decreases depths,
{
    if depths == 0 {
        Seq::empty()
    } else {
        up_to_depth(snapshots, (depths - 1) as nat) + with_depth(
            snapshots,
            snapshots.len(),
            (depths - 1) as nat,
        )
    }
}

/// The identifiers of the snapshots in the order in which their layers are built: an ancestor
/// comes before its descendants.
pub open spec fn layer_order(snapshots: Seq<PdiSnapshot>) -> Seq<Uuid> {
    up_to_depth(snapshots, snapshots.len() + 1)
}

/// The first image file that stores an extent for a snapshot.
pub open spec fn image_for(images: Seq<PdiImageFile>, identifier: Uuid) -> Option<PdiImageFile>
    decreases images.len(),
{
    if images.len() == 0 {
        None
    } else if images[0].snapshot_identifier == identifier {
        Some(images[0])
    } else {
        image_for(images.skip(1), identifier)
    }
}

/// The size of an extent.
pub open spec fn extent_size(extent: PdiExtent) -> int {
    (extent.end_sector - extent.start_sector) * 512
}

/// Why an extent cannot be used for a snapshot.
pub open spec fn extent_failure(
    resolver: SourceResolverReference,
    extent: PdiExtent,
    identifier: Uuid,
) -> Option<DriverError> {
    let overflow = if extent.end_sector * 512 > u64::MAX {
        Some(DriverError::Overflow)
    } else {
        None
    };
    if extent.start_sector * 512 > u64::MAX || extent_size(extent) > u64::MAX {
        Some(DriverError::Overflow)
    } else {
        match image_for(extent.images, identifier) {
            None => overflow,
            Some(image) => match resolver.entry(image.file) {
                Err(error) => Some(error),
                Ok(None) => Some(DriverError::Missing),
                Ok(Some(source)) => if image.is_compressed {
                    sparse_failure(
                        source.content(),
                        extent_size(extent) as u64,
                        extent.end_sector * 512,
                    )
                } else if source.content().size != extent_size(extent) {
                    Some(DriverError::Unsupported)
                } else {
                    overflow
                },
            },
        }
    }
}

/// Why an extent with an index cannot be used for a snapshot.
pub open spec fn extents_failure(
    resolver: SourceResolverReference,
    extents: Seq<PdiExtent>,
    identifier: Uuid,
) -> spec_fn(int) -> Option<DriverError> {
    |index: int| extent_failure(resolver, extents[index], identifier)
}

/// Why the layer of a snapshot cannot be built.
pub open spec fn layer_failure(
    resolver: SourceResolverReference,
    extents: Seq<PdiExtent>,
    identifier: Uuid,
) -> Option<DriverError> {
    first_failure(extents.len(), extents_failure(resolver, extents, identifier))
}

/// Where an extent stores the byte of the medium at an offset for a snapshot.
pub open spec fn extent_media_location(
    resolver: SourceResolverReference,
    extent: PdiExtent,
    identifier: Uuid,
    parent: Option<DataSourceReference>,
    offset: int,
) -> MediaLocation {
    match image_for(extent.images, identifier) {
        None => absent_location(parent, offset),
        Some(image) => {
            let source = resolver.entry(image.file)->Ok_0->0;
            if image.is_compressed {
                sparse_location(
                    source,
                    parent,
                    extent_size(extent) as u64,
                    extent.start_sector * 512,
                    offset,
                )
            } else {
                MediaLocation::Data { source, offset: offset - extent.start_sector * 512 }
            }
        },
    }
}

/// An extent that an image file stores as it is has its bytes in the file, as far behind its start as
/// they lie behind the start of the extent. An extent that no file stores for a snapshot is that of the
/// parent, or zero.
pub proof fn lemma_extent_byte(
    resolver: SourceResolverReference,
    extent: PdiExtent,
    identifier: Uuid,
    parent: Option<DataSourceReference>,
    at: int,
    source: DataSourceReference,
    relative_offset: int,
)
    requires
        0 <= relative_offset,
        -1 <= at < extent.images.len(),
        at >= 0 ==> {
            &&& extent.images[at].snapshot_identifier == identifier
            &&& !extent.images[at].is_compressed
            &&& resolver.entry(extent.images[at].file) == Ok::<
                Option<DataSourceReference>,
                DriverError,
            >(Some(source))
        },
        forall|i: int|
            0 <= i < (if at < 0 {
                extent.images.len() as int
            } else {
                at
            }) ==> (#[trigger] extent.images[i]).snapshot_identifier != identifier,
    ensures
        ({
            let offset = extent.start_sector * 512 + relative_offset;
            extent_media_location(resolver, extent, identifier, parent, offset) == (if at < 0 {
                match parent {
                    Some(parent) => MediaLocation::Data { source: parent, offset },
                    None => MediaLocation::Zero,
                }
            } else {
                MediaLocation::Data { source, offset: relative_offset }
            })
        }),
{
    lemma_image_for(extent.images, identifier, at);
}

proof fn lemma_image_for(images: Seq<PdiImageFile>, identifier: Uuid, at: int)
    requires
        -1 <= at < images.len(),
        at >= 0 ==> images[at].snapshot_identifier == identifier,
        forall|i: int|
            0 <= i < (if at < 0 {
                images.len() as int
            } else {
                at
            }) ==> (#[trigger] images[i]).snapshot_identifier != identifier,
    ensures
        image_for(images, identifier) == (if at < 0 {
            None
        } else {
            Some(images[at])
        }),
    decreases images.len(),
{
    if images.len() > 0 && at != 0 {
        assert(images[0].snapshot_identifier != identifier);
        let rest = images.skip(1);
        let next = if at < 0 {
            at
        } else {
            at - 1
        };
        assert forall|i: int|
            0 <= i < (if next < 0 {
                rest.len() as int
            } else {
                next
            }) implies (#[trigger] rest[i]).snapshot_identifier != identifier by {
            assert(rest[i] == images[i + 1]);
        }
        lemma_image_for(rest, identifier, next);
    }
}

/// Where the extents store the byte of the medium at an offset for a snapshot.
pub open spec fn extents_media_location(
    resolver: SourceResolverReference,
    extents: Seq<PdiExtent>,
    identifier: Uuid,
    parent: Option<DataSourceReference>,
    offset: int,
) -> MediaLocation
    decreases extents.len(),
{
    if extents.len() == 0 {
        MediaLocation::Zero
    } else if offset >= extents.last().start_sector * 512 {
        extent_media_location(resolver, extents.last(), identifier, parent, offset)
    } else {
        extents_media_location(resolver, extents.drop_last(), identifier, parent, offset)
    }
}

/// Where the layer of a snapshot on top of a parent stores the bytes of the medium.
pub open spec fn layer_location(
    resolver: SourceResolverReference,
    extents: Seq<PdiExtent>,
    identifier: Uuid,
    parent: Option<DataSourceReference>,
) -> spec_fn(int) -> MediaLocation {
    |k: int| extents_media_location(resolver, extents, identifier, parent, k)
}

/// Whether each extent starts where the one before it ends and is not empty.
pub open spec fn are_contiguous(extents: Seq<PdiExtent>) -> bool {
    forall|i: int|
        0 <= i < extents.len() ==> {
            &&& (#[trigger] extents[i]).start_sector < extents[i].end_sector
            &&& extents[i].start_sector == end_of(extents.take(i))
        }
}

/// Every byte of the medium is located by the extent that covers it.
pub proof fn lemma_covering_extent(
    resolver: SourceResolverReference,
    extents: Seq<PdiExtent>,
    identifier: Uuid,
    parent: Option<DataSourceReference>,
    index: int,
    offset: int,
)
    requires
        forall|i: int, j: int|
            0 <= i < j < extents.len() ==> (#[trigger] extents[i]).end_sector <= (
            #[trigger] extents[j]).start_sector,
        0 <= index < extents.len(),
        extents[index].start_sector * 512 <= offset < extents[index].end_sector * 512,
    ensures
        extents_media_location(resolver, extents, identifier, parent, offset)
            == extent_media_location(resolver, extents[index], identifier, parent, offset),
    decreases extents.len(),
{
    if index < extents.len() - 1 {
        let last = extents.len() - 1;
        assert(extents[index].end_sector <= extents[last].start_sector);
        let front = extents.drop_last();
        assert forall|i: int, j: int| 0 <= i < j < front.len() implies (
        #[trigger] front[i]).end_sector <= (#[trigger] front[j]).start_sector by {
            assert(extents[i].end_sector <= extents[j].start_sector);
        }
        lemma_covering_extent(resolver, front, identifier, parent, index, offset);
    }
}

/// Finds the last snapshot with an identifier.
pub fn find_snapshot(snapshots: &[PdiSnapshot], identifier: Uuid) -> (snapshot: Option<PdiSnapshot>)
    ensures
        snapshot == lookup(snapshots@, identifier),
{
    let mut count: usize = snapshots.len();
    assert(snapshots@.take(count as int) =~= snapshots@);
    while count > 0
        invariant
            count <= snapshots@.len(),
            lookup(snapshots@, identifier) == lookup(snapshots@.take(count as int), identifier),
        decreases count,
    {
        assert(snapshots@.take(count as int).drop_last() =~= snapshots@.take(count - 1));
        if snapshots[count - 1].identifier == identifier {
            return Some(snapshots[count - 1]);
        }
        count -= 1;
    }
    None
}

fn count_ancestors(snapshots: &[PdiSnapshot], parent: Option<Uuid>, limit: usize) -> (result:
    Result<usize, DriverError>)
    ensures
        match result {
            Ok(count) => ancestors(snapshots@, parent, limit as nat) == Ok::<nat, DriverError>(
                count as nat,
            ) && count <= limit,
            Err(error) => ancestors(snapshots@, parent, limit as nat) == Err::<nat, DriverError>(
                error,
            ),
        },
    decreases limit,
{
    match parent {
        None => Ok(0),
        Some(identifier) => match find_snapshot(snapshots, identifier) {
            None => Err(DriverError::Missing),
            Some(snapshot) => if limit == 0 {
                Err(DriverError::Cycle)
            } else {
                let count: usize = count_ancestors(
                    snapshots,
                    snapshot.parent_identifier,
                    limit - 1,
                )?;
                Ok(count + 1)
            },
        },
    }
}

fn count_snapshot_ancestors(snapshots: &[PdiSnapshot], identifier: Uuid) -> (result: Result<
    usize,
    DriverError,
>)
    ensures
        match result {
            Ok(depth) => depth_of(snapshots@, identifier) == Ok::<nat, DriverError>(depth as nat)
                && depth <= snapshots@.len(),
            Err(error) => depth_of(snapshots@, identifier) == Err::<nat, DriverError>(error),
        },
{
    match find_snapshot(snapshots, identifier) {
        None => Err(DriverError::Missing),
        Some(snapshot) => count_ancestors(
            snapshots,
            snapshot.parent_identifier,
            snapshots.len(),
        ),
    }
}

/// Orders the snapshots by the number of their ancestors.
pub fn order_snapshots(snapshots: &[PdiSnapshot]) -> (result: Result<Vec<Uuid>, DriverError>)
    ensures
        match result {
            Ok(order) => {
                &&& first_failure(snapshots@.len(), depth_failure(snapshots@)) is None
                &&& order@ == layer_order(snapshots@)
            },
            Err(error) => first_failure(snapshots@.len(), depth_failure(snapshots@)) == Some(
                error,
            ),
        },
{
    let ghost failure = depth_failure(snapshots@);
    let total: usize = snapshots.len();
    let mut depths: Vec<usize> = Vec::new();
    let mut index: usize = 0;
    while index < total
        invariant
            total == snapshots@.len(),
            index <= total,
            failure == depth_failure(snapshots@),
            first_failure(index as nat, failure) is None,
            depths@.len() == index,
            forall|i: int|
                0 <= i < index ==> depth_of(snapshots@, snapshots@[i].identifier) == Ok::<
                    nat,
                    DriverError,
                >(#[trigger] depths@[i] as nat),
        decreases total - index,
    {
        proof {
            if failure(index as int) is Some {
                lemma_first_failure_at(snapshots@.len(), failure, index as nat);
            }
        }
        let depth: usize = count_snapshot_ancestors(snapshots, snapshots[index].identifier)?;
        depths.push(depth);
        index += 1;
    }
    let mut order: Vec<Uuid> = Vec::new();
    let mut depth: usize = 0;
    loop
        invariant_except_break
            depth <= total,
            order@ == up_to_depth(snapshots@, depth as nat),
        invariant
            total == snapshots@.len(),
            depths@.len() == total,
            forall|i: int|
                0 <= i < total ==> depth_of(snapshots@, snapshots@[i].identifier) == Ok::<
                    nat,
                    DriverError,
                >(#[trigger] depths@[i] as nat),
        ensures
            order@ == layer_order(snapshots@),
        decreases total - depth,
    {
        let ghost before = order@;
        let mut position: usize = 0;
        assert(before + with_depth(snapshots@, 0, depth as nat) =~= before);
        while position < total
            invariant
                total == snapshots@.len(),
                position <= total,
                depths@.len() == total,
                forall|i: int|
                    0 <= i < total ==> depth_of(snapshots@, snapshots@[i].identifier) == Ok::<
                        nat,
                        DriverError,
                    >(#[trigger] depths@[i] as nat),
                order@ == before + with_depth(snapshots@, position as nat, depth as nat),
            decreases total - position,
        {
            assert(depths@[position as int] == depths@[position as int]);
            if depths[position] == depth {
                order.push(snapshots[position].identifier);
            }
            assert(order@ =~= before + with_depth(
                snapshots@,
                (position + 1) as nat,
                depth as nat,
            ));
            position += 1;
        }
        if depth == total {
            break;
        }
        depth += 1;
    }
    Ok(order)
}

fn find_image<'a>(images: &'a Vec<ImageFileValues>, identifier: Uuid) -> (image: Option<
    &'a ImageFileValues,
>)
    ensures
        match image {
            Some(image) => image_for(images_view(images@), identifier) == Some(image@),
            None => image_for(images_view(images@), identifier) is None,
        },
{
    let ghost all = images_view(images@);
    let mut index: usize = 0;
    assert(all.skip(0) =~= all);
    while index < images.len()
        invariant
            index <= images@.len(),
            all == images_view(images@),
            image_for(all, identifier) == image_for(all.skip(index as int), identifier),
        decreases images@.len() - index,
    {
        assert(all.skip(index as int)[0] == images@[index as int]@);
        assert(all.skip(index as int).skip(1) =~= all.skip(index + 1));
        if images[index].snapshot_identifier == identifier {
            return Some(&images[index]);
        }
        index += 1;
    }
    None
}

/// Appends an extent for a snapshot.
fn append_extent(
    list: ExtentList,
    resolver: &SourceResolverReference,
    extent: &ExtentValues,
    identifier: Uuid,
    parent: &Option<DataSourceReference>,
) -> (result: Result<ExtentList, DriverError>)
    requires
        extent.start_sector < extent.end_sector,
        list.size() == extent.start_sector * 512 || extent.start_sector * 512 > u64::MAX,
    ensures
        match result {
            Ok(next) => {
                &&& extent_failure(*resolver, extent@, identifier) is None
                &&& next.extends(list, extent_size(extent@))
                &&& forall|k: int|
                    list.size() <= k < next.size() ==> #[trigger] next.location(k)
                        == extent_media_location(*resolver, extent@, identifier, *parent, k)
            },
            Err(error) => never_fails(*resolver) ==> extent_failure(
                *resolver,
                extent@,
                identifier,
            ) == Some(error),
        },
{
    let start: u64 = extent.start_sector.checked_mul(512).ok_or(DriverError::Overflow)?;
    let size: u64 = (extent.end_sector - extent.start_sector).checked_mul(512).ok_or(
        DriverError::Overflow,
    )?;
    match find_image(&extent.images, identifier) {
        None => {
            if start > u64::MAX - size {
                return Err(DriverError::Overflow);
            }
            match parent {
                Some(parent) => Ok(list.append_data(parent, start, size, false)),
                None => Ok(list.append_zero(size, false)),
            }
        },
        Some(image) => {
            let source = resolver.open_source(image.file.as_str())?;
            let source: DataSourceReference = source.ok_or(DriverError::Missing)?;
            if image.is_compressed {
                append_sparse(list, &source, parent, size)
            } else {
                let source_size: u64 = source.size()?;
                if source_size != size {
                    return Err(DriverError::Unsupported);
                }
                if start > u64::MAX - size {
                    return Err(DriverError::Overflow);
                }
                Ok(list.append_data(&source, 0, size, false))
            }
        },
    }
}

proof fn lemma_extents_media_location(
    resolver: SourceResolverReference,
    extents: Seq<PdiExtent>,
    identifier: Uuid,
    parent: Option<DataSourceReference>,
    index: int,
    offset: int,
)
    requires
        are_contiguous(extents),
        0 <= index < extents.len(),
        extents[index].start_sector * 512 <= offset < extents[index].end_sector * 512,
    ensures
        extents_media_location(resolver, extents, identifier, parent, offset)
            == extent_media_location(resolver, extents[index], identifier, parent, offset),
    decreases extents.len(),
{
    if index < extents.len() - 1 {
        let front = extents.drop_last();
        assert forall|i: int| 0 <= i < front.len() implies {
            &&& (#[trigger] front[i]).start_sector < front[i].end_sector
            &&& front[i].start_sector == end_of(front.take(i))
        } by {
            assert(front[i] == extents[i]);
            assert(front.take(i) =~= extents.take(i));
        }
        lemma_extents_ordered(extents, index, extents.len() - 1);
        lemma_extents_media_location(resolver, front, identifier, parent, index, offset);
    }
}

proof fn lemma_extents_ordered(extents: Seq<PdiExtent>, first: int, second: int)
    requires
        are_contiguous(extents),
        0 <= first < second < extents.len(),
    ensures
        extents[first].end_sector <= extents[second].start_sector,
    decreases second - first,
{
    assert(extents[second].start_sector == end_of(extents.take(second)));
    assert(extents.take(second).last() == extents[second - 1]);
    if first < second - 1 {
        lemma_extents_ordered(extents, first, second - 1);
        assert(extents[second - 1].start_sector < extents[second - 1].end_sector);
    }
}

/// Builds the extents of the layer of a snapshot.
pub fn build_layer_extents(
    resolver: &SourceResolverReference,
    extents: &Vec<ExtentValues>,
    identifier: Uuid,
    parent: &Option<DataSourceReference>,
) -> (result: Result<ExtentList, DriverError>)
    requires
        are_contiguous(extents_view(extents@)),
    ensures
        match result {
            Ok(list) => {
                &&& layer_failure(*resolver, extents_view(extents@), identifier) is None
                &&& list.size() == end_of(extents_view(extents@)) * 512
                &&& forall|k: int|
                    0 <= k < list.size() ==> #[trigger] list.location(k) == layer_location(
                        *resolver,
                        extents_view(extents@),
                        identifier,
                        *parent,
                    )(k)
            },
            Err(error) => never_fails(*resolver) ==> layer_failure(
                *resolver,
                extents_view(extents@),
                identifier,
            ) == Some(error),
        },
{
    let ghost all = extents_view(extents@);
    let ghost failure = extents_failure(*resolver, all, identifier);
    let ghost location = layer_location(*resolver, all, identifier, *parent);
    let mut list = ExtentList::new();
    let mut index: usize = 0;
    while index < extents.len()
        invariant
            all == extents_view(extents@),
            are_contiguous(all),
            failure == extents_failure(*resolver, all, identifier),
            location == layer_location(*resolver, all, identifier, *parent),
            index <= extents@.len(),
            first_failure(index as nat, failure) is None,
            list.size() == end_of(all.take(index as int)) * 512,
            forall|k: int| 0 <= k < list.size() ==> #[trigger] list.location(k) == location(k),
        decreases extents@.len() - index,
    {
        let extent = &extents[index];
        proof {
            assert(all[index as int] == extent@);
            if failure(index as int) is Some {
                lemma_first_failure_at(all.len(), failure, index as nat);
            }
        }
        let ghost before = list;
        list = append_extent(list, resolver, extent, identifier, parent)?;
        proof {
            assert(all.take(index + 1).last() == extent@);
            assert forall|k: int| 0 <= k < list.size() implies #[trigger] list.location(k)
                == location(k) by {
                if k < before.size() {
                    assert(list.location(k) == before.location(k));
                } else {
                    lemma_extents_media_location(
                        *resolver,
                        all,
                        identifier,
                        *parent,
                        index as int,
                        k,
                    );
                }
            }
        }
        index += 1;
    }
    assert(all.take(index as int) =~= all);
    Ok(list)
}

proof fn lemma_with_depth_contains(
    snapshots: Seq<PdiSnapshot>,
    count: nat,
    depth: nat,
    identifier: Uuid,
)
    requires
        count <= snapshots.len(),
        with_depth(snapshots, count, depth).contains(identifier),
    ensures
        depth_of(snapshots, identifier) == Ok::<nat, DriverError>(depth),
    decreases count,
{
    if count > 0 {
        let front = with_depth(snapshots, (count - 1) as nat, depth);
        let last = snapshots[count - 1].identifier;
        if !front.contains(identifier) {
            let list = with_depth(snapshots, count, depth);
            let i = choose|i: int| 0 <= i < list.len() && list[i] == identifier;
            if i < front.len() {
                assert(front[i] == identifier);
            }
        } else {
            lemma_with_depth_contains(snapshots, (count - 1) as nat, depth, identifier);
        }
    }
}

proof fn lemma_up_to_depth_sorted(snapshots: Seq<PdiSnapshot>, depths: nat, first: int, second: int)
    requires
        0 <= first < second < up_to_depth(snapshots, depths).len(),
    ensures
        depth_of(snapshots, up_to_depth(snapshots, depths)[first]) is Ok,
        depth_of(snapshots, up_to_depth(snapshots, depths)[second]) is Ok,
        depth_of(snapshots, up_to_depth(snapshots, depths)[first])->Ok_0 <= depth_of(
            snapshots,
            up_to_depth(snapshots, depths)[second],
        )->Ok_0,
        depth_of(snapshots, up_to_depth(snapshots, depths)[second])->Ok_0 < depths,
    decreases depths,
{
    if depths > 0 {
        let front = up_to_depth(snapshots, (depths - 1) as nat);
        let back = with_depth(snapshots, snapshots.len(), (depths - 1) as nat);
        let list = up_to_depth(snapshots, depths);
        if second < front.len() {
            lemma_up_to_depth_sorted(snapshots, (depths - 1) as nat, first, second);
        } else {
            assert(list[second] == back[second - front.len()]);
            lemma_with_depth_contains(
                snapshots,
                snapshots.len(),
                (depths - 1) as nat,
                list[second],
            );
            if first < front.len() {
                lemma_up_to_depth_bound(snapshots, (depths - 1) as nat, first);
                assert(list[first] == front[first]);
            } else {
                assert(list[first] == back[first - front.len()]);
                lemma_with_depth_contains(
                    snapshots,
                    snapshots.len(),
                    (depths - 1) as nat,
                    list[first],
                );
            }
        }
    }
}

proof fn lemma_up_to_depth_bound(snapshots: Seq<PdiSnapshot>, depths: nat, index: int)
    requires
        0 <= index < up_to_depth(snapshots, depths).len(),
    ensures
        depth_of(snapshots, up_to_depth(snapshots, depths)[index]) is Ok,
        depth_of(snapshots, up_to_depth(snapshots, depths)[index])->Ok_0 < depths,
    decreases depths,
{
    if depths > 0 {
        let front = up_to_depth(snapshots, (depths - 1) as nat);
        let back = with_depth(snapshots, snapshots.len(), (depths - 1) as nat);
        let list = up_to_depth(snapshots, depths);
        if index < front.len() {
            lemma_up_to_depth_bound(snapshots, (depths - 1) as nat, index);
        } else {
            assert(list[index] == back[index - front.len()]);
            lemma_with_depth_contains(
                snapshots,
                snapshots.len(),
                (depths - 1) as nat,
                list[index],
            );
        }
    }
}

/// Every layer that is built is that of a snapshot.
pub proof fn lemma_layer_order_known(snapshots: Seq<PdiSnapshot>, index: int)
    requires
        0 <= index < layer_order(snapshots).len(),
    ensures
        lookup(snapshots, layer_order(snapshots)[index]) is Some,
{
    lemma_up_to_depth_bound(snapshots, snapshots.len() + 1, index);
}

/// The layers are built in the order of the number of their ancestors.
pub proof fn lemma_layer_order_sorted(snapshots: Seq<PdiSnapshot>, first: int, second: int)
    requires
        0 <= first < second < layer_order(snapshots).len(),
    ensures
        depth_of(snapshots, layer_order(snapshots)[first]) is Ok,
        depth_of(snapshots, layer_order(snapshots)[second]) is Ok,
        depth_of(snapshots, layer_order(snapshots)[first])->Ok_0 <= depth_of(
            snapshots,
            layer_order(snapshots)[second],
        )->Ok_0,
{
    lemma_up_to_depth_sorted(snapshots, snapshots.len() + 1, first, second);
}

} // verus!
