//! VMDK files.

use vstd::prelude::*;

use super::cowd;
use super::cowd::VmdkSparseCowdFileHeader;
use super::descriptor::{
    descriptor_at, read_descriptor, ExtentInfo, VmdkDescriptor, VmdkDescriptorExtentType,
    VmdkDiskType,
};
use super::sparse;
use super::sparse::VmdkSparseFileHeader;
use crate::bytes::{lemma_holds_le, read_u32_be, u32_be};
use crate::error::DriverError;
use crate::image::block_map::is_medium;
use crate::image::block_table::{block_location, lemma_block_byte};
use crate::source::data_source::{read_bytes, Content, DataSource, DataSourceReference};
use crate::source::extent_map::MediaLocation;

verus! {

/// VMDK compression method.
#[derive(Clone, Copy, Debug, PartialEq, Eq, PartialOrd, Ord, Hash, Structural)]
pub enum VmdkCompressionMethod {
    Uncompressed,
    Zlib,
}

/// What is known of an opened image.
pub struct VmdkImage {
    pub disk_type: VmdkDiskType,
    pub sectors_per_grain: u64,
    pub compression_method: VmdkCompressionMethod,
    pub content_identifier: u32,
    pub parent_content_identifier: Option<u32>,
    pub media_size: u64,
}

/// Whether an image starts with the signature of a copy-on-write disk.
pub open spec fn is_cowd(content: Content) -> bool {
    u32_be(content.window(0, 4), 0) == 0x434f_5744
}

/// The extent of a descriptor, which has to be the only one, sparse and, if it has a name, one
/// that is not empty.
pub open spec fn single_extent(descriptor: VmdkDescriptor) -> Result<
    ExtentInfo,
    DriverError,
> {
    if !(descriptor.disk_type is MonolithicSparse) || descriptor.extents.len() != 1
        || !(descriptor.extents[0].extent_type is Sparse) {
        Err(DriverError::Unsupported)
    } else if descriptor.extents[0].file_name matches Some(name) && name.len() == 0 {
        Err(DriverError::Invalid)
    } else {
        Ok(descriptor.extents[0])
    }
}

/// The descriptor that a sparse file header refers to.
pub open spec fn embedded_descriptor(content: Content, header: VmdkSparseFileHeader) -> Result<
    VmdkDescriptor,
    DriverError,
> {
    if header.descriptor_start_sector == 0 || header.descriptor_size == 0 {
        Err(DriverError::Invalid)
    } else if header.descriptor_start_sector * 512 > u64::MAX || header.descriptor_size * 512
        > u64::MAX {
        Err(DriverError::Overflow)
    } else {
        descriptor_at(
            content,
            header.descriptor_start_sector * 512,
            (header.descriptor_size * 512) as u64,
        )
    }
}

/// What is known of an image in a sparse file with the given header.
pub open spec fn sparse_image(content: Content, header: VmdkSparseFileHeader) -> Result<
    VmdkImage,
    DriverError,
> {
    match embedded_descriptor(content, header) {
        Err(error) => Err(error),
        Ok(descriptor) => match single_extent(descriptor) {
            Err(error) => Err(error),
            Ok(extent) => if extent.number_of_sectors * 512 > u64::MAX
                || header.maximum_data_number_of_sectors * 512 > u64::MAX {
                Err(DriverError::Overflow)
            } else if extent.number_of_sectors > header.maximum_data_number_of_sectors {
                Err(DriverError::OutOfBounds)
            } else {
                let media_size = (extent.number_of_sectors * 512) as u64;
                match sparse::grains_failure(content, header, media_size) {
                    Some(error) => Err(error),
                    None => Ok(
                        VmdkImage {
                            disk_type: VmdkDiskType::MonolithicSparse,
                            sectors_per_grain: header.sectors_per_grain,
                            compression_method: VmdkCompressionMethod::Uncompressed,
                            content_identifier: descriptor.content_identifier,
                            parent_content_identifier: descriptor.parent_content_identifier,
                            media_size,
                        },
                    ),
                }
            },
        },
    }
}

/// What is known of an image that can be opened.
pub open spec fn image_of(content: Content) -> Result<VmdkImage, DriverError> {
    if !content.has(0, 4) {
        Err(DriverError::Truncated)
    } else if is_cowd(content) {
        match cowd::header_of(content) {
            Err(error) => Err(error),
            Ok(header) => match cowd::grains_failure(content, header) {
                Some(error) => Err(error),
                None => Ok(
                    VmdkImage {
                        disk_type: VmdkDiskType::VmfsSparse,
                        sectors_per_grain: header.sectors_per_grain as u64,
                        compression_method: VmdkCompressionMethod::Uncompressed,
                        content_identifier: 0,
                        parent_content_identifier: None,
                        media_size: cowd::media_size(header) as u64,
                    },
                ),
            },
        }
    } else {
        match sparse::header_of(content) {
            Err(error) => Err(error),
            Ok(header) => sparse_image(content, header),
        }
    }
}

/// Where an image stores the byte of the medium at an offset: in the grain that covers it.
pub open spec fn media_location(source: DataSourceReference, media_size: u64) -> spec_fn(
    int,
) -> MediaLocation {
    if is_cowd(source.content()) {
        let header = cowd::header_of(source.content())->Ok_0;
        block_location(
            source,
            None,
            cowd::grain_size(header),
            cowd::grain_offsets(source.content(), header),
        )
    } else {
        let header = sparse::header_of(source.content())->Ok_0;
        block_location(
            source,
            None,
            sparse::grain_size(header),
            sparse::grain_offsets(source.content(), header, media_size),
        )
    }
}

/// Every byte of a grain of a sparse file lies as far behind the sector that its grain table gives as it
/// lies behind the start of the grain. It is zero where there is no sector.
pub proof fn lemma_sparse_byte(
    source: DataSourceReference,
    header: VmdkSparseFileHeader,
    media_size: u64,
    directory: int,
    table: int,
    index: int,
    sector: int,
    relative_offset: int,
)
    requires
        !is_cowd(source.content()),
        sparse::header_of(source.content()) == Ok::<VmdkSparseFileHeader, DriverError>(header),
        sparse::holds_grain(source.content(), header, directory, table, index, sector),
        0 <= directory,
        0 <= index < header.number_of_grain_table_entries,
        0 < table,
        sparse::grain_directory_sector(header) * 512 + 4 * directory <= u64::MAX,
        sector * 512 + header.sectors_per_grain * 512 <= u64::MAX,
        sector * 512 + header.sectors_per_grain * 512 <= source.content().size,
        0 <= relative_offset < header.sectors_per_grain * 512,
    ensures
        media_location(source, media_size)(
            (directory * header.number_of_grain_table_entries + index) * (header.sectors_per_grain
                * 512) + relative_offset,
        ) == (if sector == 0 {
            MediaLocation::Zero
        } else {
            MediaLocation::Data { source, offset: sector * 512 + relative_offset }
        }),
{
    broadcast use lemma_holds_le;

    let content = source.content();
    let number = directory * header.number_of_grain_table_entries + index;
    sparse::lemma_grain_located(content, header, media_size, directory, table, index, sector);
    assert(0 <= number) by (nonlinear_arith)
        requires
            0 <= directory,
            0 <= index,
            number == directory * header.number_of_grain_table_entries + index,
    ;
    lemma_block_byte(
        source,
        None,
        sparse::grain_size(header),
        sparse::grain_offsets(content, header, media_size),
        number,
        relative_offset,
    );
}

/// Every byte of a grain of a copy-on-write disk lies as far behind the sector that its grain table
/// gives as it lies behind the start of the grain. It is zero where there is no sector.
pub proof fn lemma_cowd_byte(
    source: DataSourceReference,
    header: VmdkSparseCowdFileHeader,
    media_size: u64,
    directory: int,
    table: int,
    index: int,
    sector: int,
    relative_offset: int,
)
    requires
        is_cowd(source.content()),
        cowd::header_of(source.content()) == Ok::<VmdkSparseCowdFileHeader, DriverError>(header),
        source.content().holds_le(
            header.grain_directory_start_sector * 512 + 4 * directory,
            4,
            table,
        ),
        table != 0 ==> source.content().holds_le(table * 512 + 4 * index, 4, sector),
        0 <= directory < header.number_of_grain_directory_entries,
        0 <= index < 0x8_0000,
        table != 0 && sector != 0 ==> sector * 512 + header.sectors_per_grain * 512
            <= source.content().size,
        0 <= relative_offset < header.sectors_per_grain * 512,
    ensures
        media_location(source, media_size)(
            (directory * 0x8_0000 + index) * (header.sectors_per_grain * 512) + relative_offset,
        ) == (if table == 0 || sector == 0 {
            MediaLocation::Zero
        } else {
            MediaLocation::Data { source, offset: sector * 512 + relative_offset }
        }),
{
    broadcast use lemma_holds_le;

    let content = source.content();
    cowd::lemma_grain_located(content, header, directory, table, index, sector);
    lemma_block_byte(
        source,
        None,
        cowd::grain_size(header),
        cowd::grain_offsets(content, header),
        directory * 0x8_0000 + index,
        relative_offset,
    );
}

/// VMDK file metadata plus opened logical source.
pub struct VmdkFile {
    disk_type: VmdkDiskType,
    sectors_per_grain: u64,
    compression_method: VmdkCompressionMethod,
    content_identifier: u32,
    parent_content_identifier: Option<u32>,
    media_size: u64,
    logical_source: DataSourceReference,
}

impl VmdkFile {
    /// What is known of the image.
    pub closed spec fn view(&self) -> VmdkImage {
        VmdkImage {
            disk_type: self.disk_type,
            sectors_per_grain: self.sectors_per_grain,
            compression_method: self.compression_method,
            content_identifier: self.content_identifier,
            parent_content_identifier: self.parent_content_identifier,
            media_size: self.media_size,
        }
    }

    /// The logical media source.
    pub closed spec fn logical_source(&self) -> DataSourceReference {
        self.logical_source
    }

    /// Opens and parses a VMDK sparse or COWD file.
    pub fn open(source: DataSourceReference) -> (result: Result<Self, DriverError>)
        ensures
            match result {
                Ok(file) => {
                    &&& image_of(source.content()) == Ok::<VmdkImage, DriverError>(file@)
                    &&& is_medium(
                        file.logical_source(),
                        source,
                        file@.media_size as nat,
                        media_location(source, file@.media_size),
                    )
                },
                Err(error) => source.reliable() ==> image_of(source.content()) == Err::<
                    VmdkImage,
                    DriverError,
                >(error),
            },
    {
        let signature: Vec<u8> = read_bytes(&source, 0, 4)?;
        if read_u32_be(signature.as_slice(), 0) == 0x434f_5744 {
            return Self::open_cowd(source);
        }
        let source_size: u64 = source.size()?;
        let header = sparse::read_header(&source)?;
        Self::open_sparse(source, source_size, header)
    }

    fn open_sparse(
        source: DataSourceReference,
        source_size: u64,
        header: VmdkSparseFileHeader,
    ) -> (result: Result<Self, DriverError>)
        requires
            source_size == source.content().size,
            source.content().has(0, 4),
            !is_cowd(source.content()),
            sparse::header_of(source.content()) == Ok::<VmdkSparseFileHeader, DriverError>(header),
            header.sectors_per_grain >= 8,
        ensures
            match result {
                Ok(file) => {
                    &&& sparse_image(source.content(), header) == Ok::<VmdkImage, DriverError>(
                        file@,
                    )
                    &&& is_medium(
                        file.logical_source(),
                        source,
                        file@.media_size as nat,
                        media_location(source, file@.media_size),
                    )
                },
                Err(error) => source.reliable() ==> sparse_image(source.content(), header) == Err::<
                    VmdkImage,
                    DriverError,
                >(error),
            },
    {
        if header.descriptor_start_sector == 0 || header.descriptor_size == 0 {
            return Err(DriverError::Invalid);
        }
        let descriptor_offset: u64 = header.descriptor_start_sector.checked_mul(512).ok_or(
            DriverError::Overflow,
        )?;
        let descriptor_size: u64 = header.descriptor_size.checked_mul(512).ok_or(
            DriverError::Overflow,
        )?;
        let descriptor = read_descriptor(&source, descriptor_offset, descriptor_size)?;

        if descriptor.disk_type != VmdkDiskType::MonolithicSparse {
            return Err(DriverError::Unsupported);
        }
        if descriptor.extents.len() != 1 || descriptor.extents[0].extent_type
            != VmdkDescriptorExtentType::Sparse {
            return Err(DriverError::Unsupported);
        }
        assert(descriptor@.extents[0] == descriptor.extents@[0]@);
        if descriptor.extents[0].has_empty_file_name() {
            return Err(DriverError::Invalid);
        }
        let media_size: u64 = descriptor.extents[0].number_of_sectors.checked_mul(512).ok_or(
            DriverError::Overflow,
        )?;
        let maximum_size: u64 = header.maximum_data_number_of_sectors.checked_mul(512).ok_or(
            DriverError::Overflow,
        )?;
        if media_size > maximum_size {
            return Err(DriverError::OutOfBounds);
        }
        let map = sparse::build_grains(&source, source_size, &header, media_size)?;
        let logical_source = map.into_source(Ghost(media_location(source, media_size)));
        Ok(
            VmdkFile {
                disk_type: descriptor.disk_type,
                sectors_per_grain: header.sectors_per_grain,
                compression_method: VmdkCompressionMethod::Uncompressed,
                content_identifier: descriptor.content_identifier,
                parent_content_identifier: descriptor.parent_content_identifier,
                media_size,
                logical_source,
            },
        )
    }

    fn open_cowd(source: DataSourceReference) -> (result: Result<Self, DriverError>)
        requires
            source.content().has(0, 4),
            is_cowd(source.content()),
        ensures
            match result {
                Ok(file) => {
                    &&& image_of(source.content()) == Ok::<VmdkImage, DriverError>(file@)
                    &&& is_medium(
                        file.logical_source(),
                        source,
                        file@.media_size as nat,
                        media_location(source, file@.media_size),
                    )
                },
                Err(error) => source.reliable() ==> image_of(source.content()) == Err::<
                    VmdkImage,
                    DriverError,
                >(error),
            },
    {
        let source_size: u64 = source.size()?;
        let header = cowd::read_header(&source)?;
        let media_size: u64 = header.maximum_data_number_of_sectors as u64 * 512;
        let map = cowd::build_grains(&source, source_size, &header)?;
        let logical_source = map.into_source(Ghost(media_location(source, media_size)));
        Ok(
            VmdkFile {
                disk_type: VmdkDiskType::VmfsSparse,
                sectors_per_grain: header.sectors_per_grain as u64,
                compression_method: VmdkCompressionMethod::Uncompressed,
                content_identifier: 0,
                parent_content_identifier: None,
                media_size,
                logical_source,
            },
        )
    }

    /// Retrieves the disk type.
    pub fn disk_type(&self) -> (disk_type: VmdkDiskType)
        ensures
            disk_type == self@.disk_type,
    {
        self.disk_type
    }

    /// Retrieves the bytes-per-sector value.
    pub fn bytes_per_sector(&self) -> (bytes_per_sector: u16)
        ensures
            bytes_per_sector == 512,
    {
        512
    }

    /// Retrieves the sectors per grain.
    pub fn sectors_per_grain(&self) -> (sectors_per_grain: u64)
        ensures
            sectors_per_grain == self@.sectors_per_grain,
    {
        self.sectors_per_grain
    }

    /// Retrieves the compression method.
    pub fn compression_method(&self) -> (compression_method: VmdkCompressionMethod)
        ensures
            compression_method == self@.compression_method,
    {
        self.compression_method
    }

    /// Retrieves the content identifier.
    pub fn content_identifier(&self) -> (content_identifier: u32)
        ensures
            content_identifier == self@.content_identifier,
    {
        self.content_identifier
    }

    /// Retrieves the parent content identifier if present.
    pub fn parent_content_identifier(&self) -> (parent_content_identifier: Option<u32>)
        ensures
            parent_content_identifier == self@.parent_content_identifier,
    {
        self.parent_content_identifier
    }

    /// Retrieves the media size.
    pub fn media_size(&self) -> (media_size: u64)
        ensures
            media_size == self@.media_size,
    {
        self.media_size
    }

    /// Opens the logical media source.
    pub fn open_source(&self) -> (source: DataSourceReference)
        ensures
            source == self.logical_source(),
    {
        self.logical_source.clone()
    }
}

} // verus!
