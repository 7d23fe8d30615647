//! PDI images.

use vstd::prelude::*;
use vstd::utf8::{decode_utf8, valid_utf8};

use super::descriptor::{
    descriptor_of, end_of, extents_in, lemma_extents_contiguous, parse_descriptor, DescriptorValues,
    PdiDescriptor, PdiExtent, PdiSnapshot,
};
use super::layers::{
    are_contiguous, build_layer_extents, depth_failure, layer_failure, layer_location, layer_order,
    lookup, order_snapshots,
};
use crate::checks::{first_failure, lemma_first_failure_at};
use crate::error::DriverError;
use crate::image::extent_list::is_composed_medium;
use crate::resolver::source_resolver::{never_fails, SourceResolver, SourceResolverReference};
use crate::source::data_source::{is_start_of, readable_data, DataSource, DataSourceReference};
use crate::text::{text_chars, utf8_text};
use crate::uuid::Uuid;

verus! {

/// What the descriptor of an image, a file of at most 64 KiB, says.
pub open spec fn descriptor_in(resolver: SourceResolverReference) -> Result<
    PdiDescriptor,
    DriverError,
> {
    match resolver.entry("DiskDescriptor.xml"@) {
        Err(error) => Err(error),
        Ok(None) => Err(DriverError::Missing),
        Ok(Some(source)) => if source.content().size == 0 || source.content().size > 0x1_0000 {
            Err(DriverError::Unsupported)
        } else if !valid_utf8(readable_data(source.content())) {
            Err(DriverError::Encoding)
        } else {
            descriptor_of(decode_utf8(readable_data(source.content())))
        },
    }
}

/// Whether the descriptor of an image can be taken to say what `descriptor` does, by a source that
/// reads less than there is.
pub open spec fn may_describe(
    resolver: SourceResolverReference,
    descriptor: PdiDescriptor,
) -> bool {
    resolver.entry("DiskDescriptor.xml"@) matches Ok(Some(source)) && 0 < source.content().size
        <= 0x1_0000 && exists|data: Seq<u8>|
        #[trigger] is_start_of(data, source.content()) && valid_utf8(data) && descriptor_of(
            decode_utf8(data),
        ) == Ok::<PdiDescriptor, DriverError>(descriptor)
}

/// Why the layer with an index in the order in which they are built cannot be built.
pub open spec fn layers_failure(
    resolver: SourceResolverReference,
    descriptor: PdiDescriptor,
) -> spec_fn(int) -> Option<DriverError> {
    |index: int|
        layer_failure(resolver, descriptor.extents, layer_order(descriptor.snapshots)[index])
}

/// Why an image with the given descriptor cannot be opened, if it cannot.
pub open spec fn image_failure(
    resolver: SourceResolverReference,
    descriptor: PdiDescriptor,
) -> Option<DriverError> {
    match first_failure(descriptor.snapshots.len(), depth_failure(descriptor.snapshots)) {
        Some(error) => Some(error),
        None => first_failure(
            layer_order(descriptor.snapshots).len(),
            layers_failure(resolver, descriptor),
        ),
    }
}

/// PDI image layer metadata plus opened logical source.
pub struct PdiImageLayer {
    identifier: Uuid,
    parent_identifier: Option<Uuid>,
    media_size: u64,
    logical_source: DataSourceReference,
}

/// The medium of the last of the layers that has the given identifier.
pub open spec fn parent_source(layers: Seq<PdiImageLayer>, parent: Option<Uuid>) -> Option<
    DataSourceReference,
>
    decreases layers.len(),
{
    match parent {
        None => None,
        Some(identifier) => if layers.len() == 0 {
            None
        } else if layers.last().spec_identifier() == identifier {
            Some(layers.last().logical_source())
        } else {
            parent_source(layers.drop_last(), parent)
        },
    }
}

/// Whether a layer is the one of a snapshot on top of the layers before it.
pub open spec fn is_layer(
    layer: PdiImageLayer,
    before: Seq<PdiImageLayer>,
    resolver: SourceResolverReference,
    descriptor: PdiDescriptor,
    identifier: Uuid,
) -> bool {
    &&& layer.spec_identifier() == identifier
    &&& lookup(descriptor.snapshots, identifier) is Some
    &&& layer.spec_parent_identifier() == lookup(
        descriptor.snapshots,
        identifier,
    )->0.parent_identifier
    &&& layer.spec_media_size() == descriptor.media_size
    &&& is_composed_medium(
        layer.logical_source(),
        (end_of(descriptor.extents) * 512) as u64,
        layer_location(
            resolver,
            descriptor.extents,
            identifier,
            parent_source(before, layer.spec_parent_identifier()),
        ),
    )
}

/// Whether layers are those of a descriptor, each on top of those before it.
pub open spec fn are_layers(
    layers: Seq<PdiImageLayer>,
    resolver: SourceResolverReference,
    descriptor: PdiDescriptor,
) -> bool {
    &&& layers.len() == layer_order(descriptor.snapshots).len()
    &&& forall|i: int|
        0 <= i < layers.len() ==> is_layer(
            #[trigger] layers[i],
            layers.take(i),
            resolver,
            descriptor,
            layer_order(descriptor.snapshots)[i],
        )
}

/// Whether an image is what a descriptor describes.
pub open spec fn is_described_by(
    image: PdiImage,
    resolver: SourceResolverReference,
    descriptor: PdiDescriptor,
) -> bool {
    &&& image.spec_media_size() == descriptor.media_size
    &&& image_failure(resolver, descriptor) is None
    &&& are_layers(image@, resolver, descriptor)
    &&& may_describe(resolver, descriptor)
    &&& never_fails(resolver) ==> descriptor_in(resolver) == Ok::<PdiDescriptor, DriverError>(
        descriptor,
    )
}

impl PdiImageLayer {
    /// The identifier of the layer.
    pub closed spec fn spec_identifier(&self) -> Uuid {
        self.identifier
    }

    /// The identifier of the parent of the layer.
    pub closed spec fn spec_parent_identifier(&self) -> Option<Uuid> {
        self.parent_identifier
    }

    /// The media size of the layer.
    pub closed spec fn spec_media_size(&self) -> u64 {
        self.media_size
    }

    /// The logical media source of the layer.
    pub closed spec fn logical_source(&self) -> DataSourceReference {
        self.logical_source
    }

    /// Retrieves the layer identifier.
    pub fn identifier(&self) -> (identifier: &Uuid)
        ensures
            *identifier == self.spec_identifier(),
    {
        &self.identifier
    }

    /// Retrieves the parent identifier if present.
    pub fn parent_identifier(&self) -> (parent_identifier: Option<&Uuid>)
        ensures
            match parent_identifier {
                Some(identifier) => self.spec_parent_identifier() == Some(*identifier),
                None => self.spec_parent_identifier() is None,
            },
    {
        match &self.parent_identifier {
            Some(identifier) => Some(identifier),
            None => None,
        }
    }

    /// Retrieves the media size.
    pub fn media_size(&self) -> (media_size: u64)
        ensures
            media_size == self.spec_media_size(),
    {
        self.media_size
    }

    /// Opens the logical source of the image layer.
    pub fn open_source(&self) -> (source: DataSourceReference)
        ensures
            source == self.logical_source(),
    {
        self.logical_source.clone()
    }
}

impl Clone for PdiImageLayer {
    fn clone(&self) -> (layer: Self)
        ensures
            layer == *self,
    {
        PdiImageLayer {
            identifier: self.identifier,
            parent_identifier: self.parent_identifier,
            media_size: self.media_size,
            logical_source: self.logical_source.clone(),
        }
    }
}

fn find_parent_source(layers: &Vec<PdiImageLayer>, parent: Option<Uuid>) -> (source: Option<
    DataSourceReference,
>)
    ensures
        source == parent_source(layers@, parent),
{
    let identifier: Uuid = match parent {
        Some(identifier) => identifier,
        None => return None,
    };
    let mut count: usize = layers.len();
    assert(layers@.take(count as int) =~= layers@);
    while count > 0
        invariant
            count <= layers@.len(),
            parent == Some(identifier),
            parent_source(layers@, parent) == parent_source(layers@.take(count as int), parent),
        decreases count,
    {
        assert(layers@.take(count as int).drop_last() =~= layers@.take(count - 1));
        if layers[count - 1].identifier == identifier {
            return Some(layers[count - 1].logical_source.clone());
        }
        count -= 1;
    }
    None
}

/// Builds the layers of the snapshots in the given order.
fn build_layers(
    resolver: &SourceResolverReference,
    descriptor: &DescriptorValues,
    order: &Vec<Uuid>,
) -> (result: Result<Vec<PdiImageLayer>, DriverError>)
    requires
        order@ == layer_order(descriptor@.snapshots),
        first_failure(descriptor@.snapshots.len(), depth_failure(descriptor@.snapshots)) is None,
        are_contiguous(descriptor@.extents),
    ensures
        match result {
            Ok(layers) => {
                &&& image_failure(*resolver, descriptor@) is None
                &&& are_layers(layers@, *resolver, descriptor@)
            },
            Err(error) => never_fails(*resolver) ==> image_failure(*resolver, descriptor@) == Some(
                error,
            ),
        },
{
    let ghost failure = layers_failure(*resolver, descriptor@);
    let mut layers: Vec<PdiImageLayer> = Vec::new();
    let mut index: usize = 0;
    while index < order.len()
        invariant
            order@ == layer_order(descriptor@.snapshots),
            first_failure(
                descriptor@.snapshots.len(),
                depth_failure(descriptor@.snapshots),
            ) is None,
            are_contiguous(descriptor@.extents),
            failure == layers_failure(*resolver, descriptor@),
            index <= order@.len(),
            first_failure(index as nat, failure) is None,
            layers@.len() == index,
            forall|i: int|
                0 <= i < index ==> is_layer(
                    #[trigger] layers@[i],
                    layers@.take(i),
                    *resolver,
                    descriptor@,
                    order@[i],
                ),
        decreases order@.len() - index,
    {
        let identifier: Uuid = order[index];
        proof {
            if failure(index as int) is Some {
                lemma_first_failure_at(order@.len(), failure, index as nat);
            }
        }
        let snapshot: PdiSnapshot = find_ordered_snapshot(
            descriptor.snapshots.as_slice(),
            identifier,
            Ghost(index as int),
        );
        let parent = find_parent_source(&layers, snapshot.parent_identifier);
        let list = build_layer_extents(resolver, &descriptor.extents, identifier, &parent)?;
        let logical_source = list.into_source(
            Ghost(layer_location(*resolver, descriptor@.extents, identifier, parent)),
        );
        let layer = PdiImageLayer {
            identifier,
            parent_identifier: snapshot.parent_identifier,
            media_size: descriptor.media_size,
            logical_source,
        };
        let ghost before = layers@;
        proof {
            assert(is_layer(layer, before, *resolver, descriptor@, order@[index as int]));
        }
        layers.push(layer);
        proof {
            assert forall|i: int| 0 <= i < index + 1 implies is_layer(
                #[trigger] layers@[i],
                layers@.take(i),
                *resolver,
                descriptor@,
                order@[i],
            ) by {
                if i < index {
                    assert(layers@[i] == before[i]);
                    assert(layers@.take(i) =~= before.take(i));
                } else {
                    assert(layers@.take(i) =~= before);
                }
            }
        }
        index += 1;
    }
    Ok(layers)
}

fn find_ordered_snapshot(
    snapshots: &[PdiSnapshot],
    identifier: Uuid,
    index: Ghost<int>,
) -> (snapshot: PdiSnapshot)
    requires
        0 <= index@ < layer_order(snapshots@).len(),
        layer_order(snapshots@)[index@] == identifier,
    ensures
        lookup(snapshots@, identifier) == Some(snapshot),
{
    proof {
        super::layers::lemma_layer_order_known(snapshots@, index@);
    }
    match super::layers::find_snapshot(snapshots, identifier) {
        Some(snapshot) => snapshot,
        None => vstd::pervasive::unreached(),
    }
}

/// PDI image metadata plus opened layers.
pub struct PdiImage {
    media_size: u64,
    layers: Vec<PdiImageLayer>,
}

impl PdiImage {
    /// The layers of the image.
    pub closed spec fn view(&self) -> Seq<PdiImageLayer> {
        self.layers@
    }

    /// The media size of the image.
    pub closed spec fn spec_media_size(&self) -> u64 {
        self.media_size
    }

    /// Opens and parses a PDI image from a resolver rooted at the `.hdd` directory.
    pub fn open(resolver: &SourceResolverReference) -> (result: Result<Self, DriverError>)
        ensures
            match result {
                Ok(image) => exists|descriptor: PdiDescriptor|
                    #[trigger] is_described_by(image, *resolver, descriptor),
                Err(error) => never_fails(*resolver) ==> match descriptor_in(*resolver) {
                    Err(descriptor_error) => error == descriptor_error,
                    Ok(descriptor) => image_failure(*resolver, descriptor) == Some(error),
                },
            },
    {
        let descriptor = Self::read_descriptor(resolver)?;
        Self::open_described(resolver, descriptor)
    }

    /// Opens the image that a descriptor describes.
    fn open_described(resolver: &SourceResolverReference, descriptor: DescriptorValues) -> (result:
        Result<Self, DriverError>)
        requires
            are_contiguous(descriptor@.extents),
            may_describe(*resolver, descriptor@),
            never_fails(*resolver) ==> descriptor_in(*resolver) == Ok::<PdiDescriptor, DriverError>(
                descriptor@,
            ),
        ensures
            match result {
                Ok(image) => is_described_by(image, *resolver, descriptor@),
                Err(error) => never_fails(*resolver) ==> image_failure(*resolver, descriptor@)
                    == Some(error),
            },
    {
        let order: Vec<Uuid> = order_snapshots(descriptor.snapshots.as_slice())?;
        let layers: Vec<PdiImageLayer> = build_layers(resolver, &descriptor, &order)?;
        Ok(PdiImage { media_size: descriptor.media_size, layers })
    }

    fn read_descriptor(resolver: &SourceResolverReference) -> (result: Result<
        DescriptorValues,
        DriverError,
    >)
        ensures
            match result {
                Ok(descriptor) => {
                    &&& are_contiguous(descriptor@.extents)
                    &&& may_describe(*resolver, descriptor@)
                    &&& never_fails(*resolver) ==> descriptor_in(*resolver) == Ok::<
                        PdiDescriptor,
                        DriverError,
                    >(descriptor@)
                },
                Err(error) => never_fails(*resolver) ==> descriptor_in(*resolver) == Err::<
                    PdiDescriptor,
                    DriverError,
                >(error),
            },
    {
        let source = resolver.open_source("DiskDescriptor.xml")?;
        let source: DataSourceReference = source.ok_or(DriverError::Missing)?;
        let size: u64 = source.size()?;
        if size == 0 || size > 0x1_0000 {
            return Err(DriverError::Unsupported);
        }
        let data: Vec<u8> = source.read_all()?;
        assert(is_start_of(data@, source.content()));
        let text: String = match utf8_text(data) {
            Some(text) => text,
            None => return Err(DriverError::Encoding),
        };
        let chars: Vec<char> = text_chars(text.as_str());
        let descriptor = parse_descriptor(chars.as_slice())?;
        proof {
            lemma_descriptor_contiguous(chars@);
        }
        Ok(descriptor)
    }

    /// Retrieves the bytes-per-sector value.
    pub fn bytes_per_sector(&self) -> (bytes_per_sector: u16)
        ensures
            bytes_per_sector == 512,
    {
        512
    }

    /// Retrieves the media size.
    pub fn media_size(&self) -> (media_size: u64)
        ensures
            media_size == self.spec_media_size(),
    {
        self.media_size
    }

    /// Retrieves the number of layers.
    pub fn number_of_layers(&self) -> (number_of_layers: usize)
        ensures
            number_of_layers == self@.len(),
    {
        self.layers.len()
    }

    /// Retrieves a layer by index.
    pub fn layer(&self, layer_index: usize) -> (result: Result<&PdiImageLayer, DriverError>)
        ensures
            match result {
                Ok(layer) => layer_index < self@.len() && *layer == self@[layer_index as int],
                Err(error) => layer_index >= self@.len() && error == DriverError::OutOfBounds,
            },
    {
        if layer_index < self.layers.len() {
            Ok(&self.layers[layer_index])
        } else {
            Err(DriverError::OutOfBounds)
        }
    }

    /// Opens the logical source of the top image layer.
    pub fn open_source(&self) -> (result: Result<DataSourceReference, DriverError>)
        ensures
            match result {
                Ok(source) => self@.len() > 0 && source == self@.last().logical_source(),
                Err(error) => self@.len() == 0 && error == DriverError::Missing,
            },
    {
        let count: usize = self.layers.len();
        if count == 0 {
            return Err(DriverError::Missing);
        }
        Ok(self.layers[count - 1].open_source())
    }
}

proof fn lemma_descriptor_contiguous(text: Seq<char>)
    requires
        descriptor_of(text) is Ok,
    ensures
        are_contiguous(descriptor_of(text)->Ok_0.extents),
{
    let extents = descriptor_of(text)->Ok_0.extents;
    let part = super::descriptor::element(text, "StorageData"@)->Ok_0;
    let parts = super::descriptor::elements(part, "Storage"@)->Ok_0;
    assert(extents_in(parts) == Ok::<Seq<PdiExtent>, DriverError>(extents));
    assert forall|i: int| 0 <= i < extents.len() implies {
        &&& (#[trigger] extents[i]).start_sector < extents[i].end_sector
        &&& extents[i].start_sector == end_of(extents.take(i))
    } by {
        lemma_extents_contiguous(parts, i);
        if i > 0 {
            assert(extents.take(i).last() == extents[i - 1]);
        }
    }
}

} // verus!
