//! NTFS file entries.

use vstd::prelude::*;

use super::data_run::{lemma_run_places, run_extents_from};
use super::attribute::{
    attribute_extents, entry_at, entry_in, first_attribute, NtfsAttribute, NtfsAttributeInfo,
    NtfsEntryInfo, NtfsMftEntry,
};
use super::boot_record::{geometry_of, read_boot_record, NtfsGeometry};
use super::index::{add_node, no_entries, NtfsDirectory, NtfsEntries};
use crate::bytes::{read_u32_le, u32_le};
use crate::error::DriverError;
use crate::filesystem::extents::{
    extent_places, file_content, file_size, is_byte_at, is_file_data, is_opened, lemma_placed_byte,
    open_error, open_file_extents, FileData, FileExtent,
};
use crate::filesystem::names::{find_last_named, last_named, lemma_last_named_at};
use crate::filesystem::path::{
    is_absolute, lemma_child_parts, lemma_root_parts, path_parts, split_absolute_path,
};
use crate::scan::texts_view;
use crate::source::data_source::{Content, DataSource, DataSourceReference};
use crate::source::memory::MemoryDataSource;
use crate::text::chars_text;

verus! {

/// The number of the MFT entry of the root directory.
pub const NTFS_ROOT_DIRECTORY_IDENTIFIER: u64 = 5;

/// The type of a data attribute.
pub const NTFS_ATTRIBUTE_TYPE_DATA: u32 = 0x80;

/// The type of an attribute that holds the root of an index.
pub const NTFS_ATTRIBUTE_TYPE_INDEX_ROOT: u32 = 0x90;

/// The type of an attribute that holds the other nodes of an index.
pub const NTFS_ATTRIBUTE_TYPE_INDEX_ALLOCATION: u32 = 0xa0;

/// The extents of a stream.
pub open spec fn stream_extents(
    source: DataSourceReference,
    cluster_size: u32,
    attribute: NtfsAttributeInfo,
) -> Result<Seq<FileExtent>, DriverError> {
    match attribute_extents(cluster_size, attribute) {
        Err(error) => Err(error),
        Ok(extents) => match file_size(source, extents) {
            Err(error) => Err(error),
            Ok(size) => Ok(extents),
        },
    }
}

/// The extents of the MFT, which its own first entry gives.
pub open spec fn mft_extents(source: DataSourceReference, geometry: NtfsGeometry) -> Result<
    Seq<FileExtent>,
    DriverError,
> {
    let offset = geometry.mft_cluster_block_number * geometry.cluster_block_size;
    if offset > u64::MAX {
        Err(DriverError::Overflow)
    } else {
        match entry_at(source.content(), geometry.mft_entry_size, offset) {
            Err(error) => Err(error),
            Ok(entry) => match first_attribute(
                entry.attributes,
                None,
                NTFS_ATTRIBUTE_TYPE_DATA,
            ) {
                None => Err(DriverError::Missing),
                Some(attribute) => stream_extents(
                    source,
                    geometry.cluster_block_size,
                    attribute,
                ),
            },
        }
    }
}

/// What is known of a file system once it is open: its geometry and the extents of its MFT.
pub open spec fn opened_volume(source: DataSourceReference) -> Result<
    (NtfsGeometry, Seq<FileExtent>),
    DriverError,
> {
    match geometry_of(source.content()) {
        Err(error) => Err(error),
        Ok(geometry) => match mft_extents(source, geometry) {
            Err(error) => Err(error),
            Ok(extents) => Ok((geometry, extents)),
        },
    }
}

/// A file entry: its MFT entry with the number of that, and its name if it was found by name.
pub struct NtfsNode {
    pub entry_number: u64,
    pub entry: NtfsEntryInfo,
    pub name: Option<Seq<char>>,
}

/// The file entry with a number.
pub open spec fn node_of(
    mft: Content,
    entry_size: u32,
    entry_number: u64,
    name: Option<Seq<char>>,
) -> Result<NtfsNode, DriverError> {
    if entry_number * entry_size > u64::MAX {
        Err(DriverError::Overflow)
    } else {
        match entry_at(mft, entry_size, entry_number * entry_size) {
            Err(error) => Err(error),
            Ok(entry) => Ok(NtfsNode { entry_number, entry, name }),
        }
    }
}

/// The name of the index of a directory.
pub open spec fn directory_index_name() -> Option<Seq<char>> {
    Some(seq!['$', 'I', '3', '0'])
}

/// The root of the index of a directory. Its values are file names in their usual order.
pub open spec fn index_root(entry: NtfsEntryInfo) -> Result<Seq<u8>, DriverError> {
    match first_attribute(entry.attributes, directory_index_name(), NTFS_ATTRIBUTE_TYPE_INDEX_ROOT) {
        None => Err(DriverError::Missing),
        Some(attribute) => if !attribute.is_resident || attribute.resident_data.len() < 32
            || u32_le(attribute.resident_data, 0) != 0x30 || u32_le(attribute.resident_data, 4)
            != 1 {
            Err(DriverError::Unsupported)
        } else {
            Ok(attribute.resident_data)
        },
    }
}

/// The content in which the other nodes of the index of a directory are stored.
pub open spec fn index_allocation(
    source: DataSourceReference,
    cluster_size: u32,
    entry: NtfsEntryInfo,
) -> Result<Option<Content>, DriverError> {
    match first_attribute(
        entry.attributes,
        directory_index_name(),
        NTFS_ATTRIBUTE_TYPE_INDEX_ALLOCATION,
    ) {
        None => Ok(None),
        Some(attribute) => match stream_extents(source, cluster_size, attribute) {
            Err(error) => Err(error),
            Ok(extents) => Ok(Some(file_content(source, extents))),
        },
    }
}

/// The entries of a directory.
pub open spec fn entries_of(
    source: DataSourceReference,
    geometry: NtfsGeometry,
    entry: NtfsEntryInfo,
) -> Result<NtfsEntries, DriverError> {
    match index_root(entry) {
        Err(error) => Err(error),
        Ok(root) => match index_allocation(source, geometry.cluster_block_size, entry) {
            Err(error) => Err(error),
            Ok(allocation) => add_node(
                allocation,
                geometry.index_entry_size,
                root,
                16,
                Seq::empty(),
                no_entries(),
            ),
        },
    }
}

/// The entry of a directory with a name. Of several entries with one name the last one counts.
pub open spec fn child_of(
    source: DataSourceReference,
    mft: Content,
    geometry: NtfsGeometry,
    entry: NtfsEntryInfo,
    name: Seq<char>,
) -> Result<Option<NtfsNode>, DriverError> {
    match entries_of(source, geometry, entry) {
        Err(error) => Err(error),
        Ok(entries) => match last_named(entries.names, name) {
            None => Ok(None),
            Some(at) => match node_of(
                mft,
                geometry.mft_entry_size,
                entries.file_references[at] % 0x1_0000_0000_0000,
                Some(name),
            ) {
                Err(error) => Err(error),
                Ok(node) => Ok(Some(node)),
            },
        },
    }
}

/// The file entry that the parts of a path from `index` on lead to, starting at a file entry.
pub open spec fn resolved_from(
    source: DataSourceReference,
    mft: Content,
    geometry: NtfsGeometry,
    parts: Seq<Seq<char>>,
    index: int,
    node: NtfsNode,
) -> Result<Option<NtfsNode>, DriverError>
    decreases parts.len() - index,
{
    if index < 0 || index >= parts.len() {
        Ok(Some(node))
    } else {
        match child_of(source, mft, geometry, node.entry, parts[index]) {
            Err(error) => Err(error),
            Ok(None) => Ok(None),
            Ok(Some(child)) => resolved_from(source, mft, geometry, parts, index + 1, child),
        }
    }
}

/// The file entry at a path, which has to be absolute.
pub open spec fn resolved(
    source: DataSourceReference,
    mft: Content,
    geometry: NtfsGeometry,
    path: Seq<char>,
) -> Result<Option<NtfsNode>, DriverError> {
    if !is_absolute(path) {
        Ok(None)
    } else {
        match node_of(mft, geometry.mft_entry_size, NTFS_ROOT_DIRECTORY_IDENTIFIER, None) {
            Err(error) => Err(error),
            Ok(root) => resolved_from(source, mft, geometry, path_parts(path), 0, root),
        }
    }
}

/// Where the data of a file is. A directory and a file without a data attribute have none.
pub open spec fn data_of(geometry: NtfsGeometry, entry: NtfsEntryInfo) -> Result<
    Option<FileData>,
    DriverError,
> {
    if entry.is_directory {
        Ok(None)
    } else if entry.base_record_file_reference != 0 {
        Err(DriverError::Unsupported)
    } else {
        match first_attribute(entry.attributes, None, NTFS_ATTRIBUTE_TYPE_DATA) {
            None => Ok(None),
            Some(attribute) => if attribute.is_resident {
                Ok(Some(FileData::Inline(attribute.resident_data)))
            } else {
                match attribute_extents(geometry.cluster_block_size, attribute) {
                    Err(error) => Err(error),
                    Ok(extents) => Ok(Some(FileData::Stored(extents))),
                }
            },
        }
    }
}

fn open_stream(source: &DataSourceReference, cluster_size: u32, attribute: &NtfsAttribute) -> (result:
    Result<DataSourceReference, DriverError>)
    ensures
        match result {
            Ok(stream) => {
                &&& stream_extents(*source, cluster_size, attribute@) is Ok
                &&& is_file_data(
                    stream,
                    *source,
                    stream_extents(*source, cluster_size, attribute@)->Ok_0,
                )
                &&& source.reliable() ==> stream.readable()
            },
            Err(error) => stream_extents(*source, cluster_size, attribute@) == Err::<
                Seq<FileExtent>,
                DriverError,
            >(error),
        },
{
    let extents: Vec<FileExtent> = attribute.read_extents(cluster_size)?;
    let stream: DataSourceReference = open_file_extents(source, &extents)?;
    Ok(stream)
}

/// An open NTFS volume: its source, what its boot record says, and its MFT.
pub struct NtfsVolume {
    pub source: DataSourceReference,
    pub geometry: NtfsGeometry,
    pub mft: DataSourceReference,
}

impl NtfsVolume {
    /// Whether the sizes of records are within their limits and the MFT can be read where the
    /// source can.
    pub open spec fn is_usable(&self) -> bool {
        &&& self.geometry.is_usable()
        &&& self.source.reliable() ==> self.mft.readable()
    }

    fn copy(&self) -> (volume: Self)
        ensures
            volume == *self,
    {
        NtfsVolume {
            source: self.source.clone(),
            geometry: self.geometry,
            mft: self.mft.clone(),
        }
    }

    fn read_entry(&self, entry_number: u64, name: Option<String>) -> (result: Result<
        NtfsFileEntry,
        DriverError,
    >)
        requires
            self.is_usable(),
        ensures
            match result {
                Ok(entry) => {
                    &&& node_of(
                        self.mft.content(),
                        self.geometry.mft_entry_size,
                        entry_number,
                        match name {
                            Some(name) => Some(name@),
                            None => None,
                        },
                    ) == Ok::<NtfsNode, DriverError>(entry@)
                    &&& entry.spec_volume() == *self
                },
                Err(error) => self.source.reliable() ==> node_of(
                    self.mft.content(),
                    self.geometry.mft_entry_size,
                    entry_number,
                    match name {
                        Some(name) => Some(name@),
                        None => None,
                    },
                ) == Err::<NtfsNode, DriverError>(error),
            },
    {
        let offset: u64 = entry_number.checked_mul(self.geometry.mft_entry_size as u64).ok_or(
            DriverError::Overflow,
        )?;
        let entry: NtfsMftEntry = NtfsMftEntry::read_at(
            &self.mft,
            self.geometry.mft_entry_size,
            offset,
        )?;
        Ok(NtfsFileEntry { volume: self.copy(), entry_number, entry, name })
    }
}

/// Immutable NTFS file entry.
pub struct NtfsFileEntry {
    volume: NtfsVolume,
    entry_number: u64,
    entry: NtfsMftEntry,
    name: Option<String>,
}

impl NtfsFileEntry {
    /// The volume that the file entry belongs to.
    pub closed spec fn spec_volume(&self) -> NtfsVolume {
        self.volume
    }

    /// The file entry.
    pub closed spec fn view(&self) -> NtfsNode {
        NtfsNode {
            entry_number: self.entry_number,
            entry: self.entry@,
            name: match self.name {
                Some(name) => Some(name@),
                None => None,
            },
        }
    }

    #[verifier::type_invariant]
    spec fn well_formed(self) -> bool {
        self.volume.is_usable()
    }

    /// Retrieves the MFT entry number.
    pub fn entry_number(&self) -> (entry_number: u64)
        ensures
            entry_number == self@.entry_number,
    {
        self.entry_number
    }

    /// Retrieves the name.
    pub fn name(&self) -> (name: Option<&str>)
        ensures
            match name {
                Some(name) => self@.name == Some(name@),
                None => self@.name is None,
            },
    {
        match &self.name {
            Some(name) => Some(name.as_str()),
            None => None,
        }
    }

    /// Retrieves the size of the nameless default data stream.
    pub fn size(&self) -> (size: u64)
        ensures
            size == (match first_attribute(
                self@.entry.attributes,
                None,
                NTFS_ATTRIBUTE_TYPE_DATA,
            ) {
                Some(attribute) => attribute.data_size,
                None => 0,
            }),
    {
        match self.entry.find_attribute(None, NTFS_ATTRIBUTE_TYPE_DATA) {
            Some(attribute) => attribute.data_size,
            None => 0,
        }
    }

    /// Determines if the file entry is a directory.
    pub fn is_directory(&self) -> (is_directory: bool)
        ensures
            is_directory == self@.entry.is_directory,
    {
        self.entry.is_directory
    }

    /// Opens the nameless default data source.
    pub fn open_source(&self) -> (result: Result<Option<DataSourceReference>, DriverError>)
        ensures
            match result {
                Ok(Some(logical)) => {
                    &&& data_of(self.spec_volume().geometry, self@.entry) is Ok
                    &&& data_of(self.spec_volume().geometry, self@.entry)->Ok_0 is Some
                    &&& is_opened(
                        logical,
                        self.spec_volume().source,
                        data_of(self.spec_volume().geometry, self@.entry)->Ok_0->0,
                    )
                },
                Ok(None) => data_of(self.spec_volume().geometry, self@.entry) == Ok::<
                    Option<FileData>,
                    DriverError,
                >(None),
                Err(error) => match data_of(self.spec_volume().geometry, self@.entry) {
                    Err(expected) => error == expected,
                    Ok(None) => false,
                    Ok(Some(data)) => open_error(self.spec_volume().source, Ok(data)) == Some(
                        error,
                    ),
                },
            },
    {
        if self.entry.is_directory {
            return Ok(None);
        }
        if self.entry.base_record_file_reference != 0 {
            return Err(DriverError::Unsupported);
        }
        let attribute: &NtfsAttribute = match self.entry.find_attribute(
            None,
            NTFS_ATTRIBUTE_TYPE_DATA,
        ) {
            Some(attribute) => attribute,
            None => return Ok(None),
        };
        if attribute.is_resident {
            let data: Vec<u8> = vstd::slice::slice_to_vec(attribute.resident_data.as_slice());
            return Ok(Some(MemoryDataSource::new(data).into_reference()));
        }
        let extents: Vec<FileExtent> = attribute.read_extents(
            self.volume.geometry.cluster_block_size,
        )?;
        Ok(Some(open_file_extents(&self.volume.source, &extents)?))
    }

    fn read_directory(&self) -> (result: Result<NtfsDirectory, DriverError>)
        ensures
            match result {
                Ok(directory) => {
                    &&& entries_of(
                        self.spec_volume().source,
                        self.spec_volume().geometry,
                        self@.entry,
                    ) == Ok::<NtfsEntries, DriverError>(directory@)
                    &&& directory.is_sound()
                },
                Err(error) => self.spec_volume().source.reliable() ==> entries_of(
                    self.spec_volume().source,
                    self.spec_volume().geometry,
                    self@.entry,
                ) == Err::<NtfsEntries, DriverError>(error),
            },
    {
        proof {
            use_type_invariant(self);
        }
        let index_name: Vec<char> = vec!['$', 'I', '3', '0'];
        assert(index_name@ =~= seq!['$', 'I', '3', '0']);
        let root: &NtfsAttribute = match self.entry.find_attribute(
            Some(index_name.as_slice()),
            NTFS_ATTRIBUTE_TYPE_INDEX_ROOT,
        ) {
            Some(root) => root,
            None => return Err(DriverError::Missing),
        };
        let data: &[u8] = root.resident_data.as_slice();
        if !root.is_resident || data.len() < 32 || read_u32_le(data, 0) != 0x30 || read_u32_le(
            data,
            4,
        ) != 1 {
            return Err(DriverError::Unsupported);
        }
        let allocation: Option<DataSourceReference> = match self.entry.find_attribute(
            Some(index_name.as_slice()),
            NTFS_ATTRIBUTE_TYPE_INDEX_ALLOCATION,
        ) {
            Some(attribute) => Some(
                open_stream(
                    &self.volume.source,
                    self.volume.geometry.cluster_block_size,
                    attribute,
                )?,
            ),
            None => None,
        };
        let mut path: Vec<u64> = Vec::new();
        assert(path@ =~= Seq::<u64>::empty());
        NtfsDirectory::new().read_node(
            &allocation,
            self.volume.geometry.index_entry_size,
            data,
            16,
            &mut path,
        )
    }

    fn sub_file_entry_by_name(&self, name: &Vec<char>) -> (result: Result<
        Option<NtfsFileEntry>,
        DriverError,
    >)
        ensures
            match result {
                Ok(Some(entry)) => {
                    &&& child_of(
                        self.spec_volume().source,
                        self.spec_volume().mft.content(),
                        self.spec_volume().geometry,
                        self@.entry,
                        name@,
                    ) == Ok::<Option<NtfsNode>, DriverError>(Some(entry@))
                    &&& entry.spec_volume() == self.spec_volume()
                },
                Ok(None) => child_of(
                    self.spec_volume().source,
                    self.spec_volume().mft.content(),
                    self.spec_volume().geometry,
                    self@.entry,
                    name@,
                ) == Ok::<Option<NtfsNode>, DriverError>(None),
                Err(error) => self.spec_volume().source.reliable() ==> child_of(
                    self.spec_volume().source,
                    self.spec_volume().mft.content(),
                    self.spec_volume().geometry,
                    self@.entry,
                    name@,
                ) == Err::<Option<NtfsNode>, DriverError>(error),
            },
    {
        proof {
            use_type_invariant(self);
        }
        let directory: NtfsDirectory = self.read_directory()?;
        match find_last_named(&directory.names, name.as_slice()) {
            None => Ok(None),
            Some(at) => {
                let entry_number: u64 = directory.file_references[at] % 0x1_0000_0000_0000;
                let entry = self.volume.read_entry(
                    entry_number,
                    Some(chars_text(name.as_slice())),
                )?;
                Ok(Some(entry))
            },
        }
    }
}

/// Immutable NTFS file system.
pub struct NtfsFileSystem {
    volume: NtfsVolume,
}

impl NtfsFileSystem {
    /// The volume of the file system.
    pub closed spec fn spec_volume(&self) -> NtfsVolume {
        self.volume
    }

    #[verifier::type_invariant]
    spec fn well_formed(self) -> bool {
        self.volume.is_usable()
    }

    /// Opens and parses an NTFS file system.
    pub fn open(source: DataSourceReference) -> (result: Result<Self, DriverError>)
        ensures
            match result {
                Ok(file_system) => {
                    &&& opened_volume(source) is Ok
                    &&& file_system.spec_volume().source == source
                    &&& file_system.spec_volume().geometry == opened_volume(source)->Ok_0.0
                    &&& is_file_data(
                        file_system.spec_volume().mft,
                        source,
                        opened_volume(source)->Ok_0.1,
                    )
                },
                Err(error) => source.reliable() ==> opened_volume(source) == Err::<
                    (NtfsGeometry, Seq<FileExtent>),
                    DriverError,
                >(error),
            },
    {
        let geometry: NtfsGeometry = read_boot_record(&source)?;
        let offset: u64 = geometry.mft_cluster_block_number.checked_mul(
            geometry.cluster_block_size as u64,
        ).ok_or(DriverError::Overflow)?;
        let entry: NtfsMftEntry = NtfsMftEntry::read_at(&source, geometry.mft_entry_size, offset)?;
        let mft: DataSourceReference = match entry.find_attribute(None, NTFS_ATTRIBUTE_TYPE_DATA) {
            Some(attribute) => open_stream(&source, geometry.cluster_block_size, attribute)?,
            None => return Err(DriverError::Missing),
        };
        Ok(NtfsFileSystem { volume: NtfsVolume { source, geometry, mft } })
    }

    /// Retrieves the bytes-per-sector value.
    pub fn bytes_per_sector(&self) -> (bytes_per_sector: u16)
        ensures
            bytes_per_sector == self.spec_volume().geometry.bytes_per_sector,
    {
        self.volume.geometry.bytes_per_sector
    }

    /// Retrieves the cluster block size.
    pub fn cluster_block_size(&self) -> (cluster_block_size: u32)
        ensures
            cluster_block_size == self.spec_volume().geometry.cluster_block_size,
    {
        self.volume.geometry.cluster_block_size
    }

    /// Retrieves the MFT entry size.
    pub fn mft_entry_size(&self) -> (mft_entry_size: u32)
        ensures
            mft_entry_size == self.spec_volume().geometry.mft_entry_size,
    {
        self.volume.geometry.mft_entry_size
    }

    /// Retrieves the index entry size.
    pub fn index_entry_size(&self) -> (index_entry_size: u32)
        ensures
            index_entry_size == self.spec_volume().geometry.index_entry_size,
    {
        self.volume.geometry.index_entry_size
    }

    /// Retrieves the volume serial number.
    pub fn volume_serial_number(&self) -> (volume_serial_number: u64)
        ensures
            volume_serial_number == self.spec_volume().geometry.volume_serial_number,
    {
        self.volume.geometry.volume_serial_number
    }

    /// Retrieves the root directory.
    pub fn root_directory(&self) -> (result: Result<NtfsFileEntry, DriverError>)
        ensures
            match result {
                Ok(entry) => {
                    &&& node_of(
                        self.spec_volume().mft.content(),
                        self.spec_volume().geometry.mft_entry_size,
                        NTFS_ROOT_DIRECTORY_IDENTIFIER,
                        None,
                    ) == Ok::<NtfsNode, DriverError>(entry@)
                    &&& entry.spec_volume() == self.spec_volume()
                },
                Err(error) => self.spec_volume().source.reliable() ==> node_of(
                    self.spec_volume().mft.content(),
                    self.spec_volume().geometry.mft_entry_size,
                    NTFS_ROOT_DIRECTORY_IDENTIFIER,
                    None,
                ) == Err::<NtfsNode, DriverError>(error),
            },
    {
        self.file_entry_by_identifier(NTFS_ROOT_DIRECTORY_IDENTIFIER)
    }

    /// Retrieves a file entry by MFT entry number.
    pub fn file_entry_by_identifier(&self, entry_number: u64) -> (result: Result<
        NtfsFileEntry,
        DriverError,
    >)
        ensures
            match result {
                Ok(entry) => {
                    &&& node_of(
                        self.spec_volume().mft.content(),
                        self.spec_volume().geometry.mft_entry_size,
                        entry_number,
                        None,
                    ) == Ok::<NtfsNode, DriverError>(entry@)
                    &&& entry.spec_volume() == self.spec_volume()
                },
                Err(error) => self.spec_volume().source.reliable() ==> node_of(
                    self.spec_volume().mft.content(),
                    self.spec_volume().geometry.mft_entry_size,
                    entry_number,
                    None,
                ) == Err::<NtfsNode, DriverError>(error),
            },
    {
        proof {
            use_type_invariant(self);
        }
        self.volume.read_entry(entry_number, None)
    }

    /// Retrieves a file entry by absolute path.
    pub fn file_entry_by_path(&self, path: &str) -> (result: Result<
        Option<NtfsFileEntry>,
        DriverError,
    >)
        ensures
            match result {
                Ok(Some(entry)) => {
                    &&& resolved(
                        self.spec_volume().source,
                        self.spec_volume().mft.content(),
                        self.spec_volume().geometry,
                        path@,
                    ) == Ok::<Option<NtfsNode>, DriverError>(Some(entry@))
                    &&& entry.spec_volume() == self.spec_volume()
                },
                Ok(None) => resolved(
                    self.spec_volume().source,
                    self.spec_volume().mft.content(),
                    self.spec_volume().geometry,
                    path@,
                ) == Ok::<Option<NtfsNode>, DriverError>(None),
                Err(error) => self.spec_volume().source.reliable() ==> resolved(
                    self.spec_volume().source,
                    self.spec_volume().mft.content(),
                    self.spec_volume().geometry,
                    path@,
                ) == Err::<Option<NtfsNode>, DriverError>(error),
            },
    {
        let ghost volume = self.spec_volume();
        let ghost mft = volume.mft.content();
        let ghost whole = resolved(volume.source, mft, volume.geometry, path@);
        let parts: Vec<Vec<char>> = match split_absolute_path(path) {
            Some(parts) => parts,
            None => return Ok(None),
        };
        let mut entry: NtfsFileEntry = self.root_directory()?;
        let mut index: usize = 0;
        while index < parts.len()
            invariant
                index <= parts@.len(),
                volume == self.spec_volume(),
                mft == volume.mft.content(),
                entry.spec_volume() == volume,
                whole == resolved(volume.source, mft, volume.geometry, path@),
                whole == resolved_from(
                    volume.source,
                    mft,
                    volume.geometry,
                    texts_view(parts@),
                    index as int,
                    entry@,
                ),
            decreases parts@.len() - index,
        {
            assert(texts_view(parts@)[index as int] == parts@[index as int]@);
            entry = match entry.sub_file_entry_by_name(&parts[index])? {
                Some(child) => child,
                None => return Ok(None),
            };
            index += 1;
        }
        Ok(Some(entry))
    }
}

/// An entry of a directory leads to the MFT entry whose number is in the lower 48 bits of its file
/// reference. That lies behind as many entries in the MFT. Of several entries with one name the last
/// one counts.
pub proof fn lemma_child_entry(
    source: DataSourceReference,
    mft: Content,
    geometry: NtfsGeometry,
    entry: NtfsEntryInfo,
    entries: NtfsEntries,
    at: int,
    number: int,
    sequence: int,
)
    requires
        entries_of(source, geometry, entry) == Ok::<NtfsEntries, DriverError>(entries),
        0 <= at < entries.names.len(),
        entries.file_references[at] == 0x1_0000_0000_0000 * sequence + number,
        forall|i: int|
            at < i < entries.names.len() ==> #[trigger] entries.names[i] != entries.names[at],
        0 <= number < 0x1_0000_0000_0000,
        0 <= sequence,
    ensures
        child_of(source, mft, geometry, entry, entries.names[at]) == (match node_of(
            mft,
            geometry.mft_entry_size,
            number as u64,
            Some(entries.names[at]),
        ) {
            Err(error) => Err(error),
            Ok(node) => Ok::<Option<NtfsNode>, DriverError>(Some(node)),
        }),
{
    lemma_last_named_at(entries.names, at);
    lemma_reference_number(entries.file_references[at], number, sequence);
}

proof fn lemma_reference_number(reference: u64, number: int, sequence: int)
    requires
        reference == 0x1_0000_0000_0000 * sequence + number,
        0 <= number < 0x1_0000_0000_0000,
        0 <= sequence,
    ensures
        reference % 0x1_0000_0000_0000 == number,
{
}

/// An MFT entry lies behind as many entries of the same size as its number says.
pub proof fn lemma_entry_place(
    mft: Content,
    entry_size: u32,
    number: u64,
    name: Option<Seq<char>>,
    entry: NtfsEntryInfo,
)
    requires
        number * entry_size <= u64::MAX,
        mft.has(number * entry_size, entry_size as int),
        entry_in(mft.window(number * entry_size, entry_size as nat)) == Ok::<
            NtfsEntryInfo,
            DriverError,
        >(entry),
    ensures
        node_of(mft, entry_size, number, name) == Ok::<NtfsNode, DriverError>(
            NtfsNode { entry_number: number, entry, name },
        ),
{
}

/// Every byte of a file that a data run covers lies in that run, as far behind its first cluster as the
/// byte lies behind the first one that the run covers. A run that is not stored holds zeros.
pub proof fn lemma_run_byte(
    source: DataSourceReference,
    geometry: NtfsGeometry,
    entry: NtfsEntryInfo,
    attribute: NtfsAttributeInfo,
    logical: DataSourceReference,
    index: int,
    offset: int,
)
    requires
        !entry.is_directory,
        entry.base_record_file_reference == 0,
        first_attribute(entry.attributes, None, 0x80) == Some(attribute),
        !attribute.is_resident,
        data_of(geometry, entry) is Ok,
        is_opened(logical, source, data_of(geometry, entry)->Ok_0->0),
        0 <= index < attribute.data_runs.len(),
        0 <= offset < attribute.data_size,
        attribute.data_runs[index].logical_cluster_number * geometry.cluster_block_size <= offset < (
        attribute.data_runs[index].logical_cluster_number
            + attribute.data_runs[index].number_of_clusters) * geometry.cluster_block_size,
    ensures
        ({
            let run = attribute.data_runs[index];
            is_byte_at(
                logical.content(),
                offset,
                source.content(),
                if run.is_sparse {
                    None
                } else {
                    Some(
                        run.physical_cluster_number * geometry.cluster_block_size + (offset
                            - run.logical_cluster_number * geometry.cluster_block_size),
                    )
                },
            )
        }),
{
    let size = geometry.cluster_block_size;
    let runs = attribute.data_runs;
    let extents = run_extents_from(size, attribute.data_size, runs, 0, Seq::empty())->Ok_0;
    lemma_run_places(size, attribute.data_size, runs, index, offset);
    let place = if runs[index].is_sparse {
        None
    } else {
        Some(
            runs[index].physical_cluster_number * size + (offset
                - runs[index].logical_cluster_number * size),
        )
    };
    let i = choose|i: int|
        0 <= i < extents.len() && extent_places(#[trigger] extents[i], offset, place);
    lemma_placed_byte(source, extents, i, offset, place);
}

/// The bytes of a file whose data is resident are those of its data attribute.
pub proof fn lemma_resident_bytes(
    source: DataSourceReference,
    geometry: NtfsGeometry,
    entry: NtfsEntryInfo,
    attribute: NtfsAttributeInfo,
    logical: DataSourceReference,
)
    requires
        !entry.is_directory,
        entry.base_record_file_reference == 0,
        first_attribute(entry.attributes, None, 0x80) == Some(attribute),
        attribute.is_resident,
        data_of(geometry, entry) is Ok,
        data_of(geometry, entry)->Ok_0 is Some,
        is_opened(logical, source, data_of(geometry, entry)->Ok_0->0),
    ensures
        logical.content().size == attribute.resident_data.len(),
        forall|k: int|
            0 <= k < attribute.resident_data.len() ==> #[trigger] logical.content().bytes[k]
                == attribute.resident_data[k],
{
}

/// The root path leads to the root directory.
pub proof fn lemma_root_path(source: DataSourceReference, mft: Content, geometry: NtfsGeometry)
    ensures
        resolved(source, mft, geometry, seq!['/']) == (match node_of(
            mft,
            geometry.mft_entry_size,
            NTFS_ROOT_DIRECTORY_IDENTIFIER,
            None,
        ) {
            Err(error) => Err(error),
            Ok(root) => Ok::<Option<NtfsNode>, DriverError>(Some(root)),
        }),
{
    lemma_root_parts();
}

/// The path of an entry of a directory, which is that of the directory, a separator and the name of
/// the entry, leads to the entry.
pub proof fn lemma_child_path(
    source: DataSourceReference,
    mft: Content,
    geometry: NtfsGeometry,
    path: Seq<char>,
    name: Seq<char>,
)
    requires
        is_absolute(path),
        name.len() > 0,
        !name.contains('/'),
    ensures
        resolved(source, mft, geometry, path + seq!['/'] + name) == (match resolved(
            source,
            mft,
            geometry,
            path,
        ) {
            Ok(Some(node)) => child_of(source, mft, geometry, node.entry, name),
            other => other,
        }),
{
    lemma_child_parts(path, name);
    if let Ok(root) = node_of(
        mft,
        geometry.mft_entry_size,
        NTFS_ROOT_DIRECTORY_IDENTIFIER,
        None,
    ) {
        lemma_child_from(source, mft, geometry, path_parts(path), name, 0, root);
    }
}

proof fn lemma_child_from(
    source: DataSourceReference,
    mft: Content,
    geometry: NtfsGeometry,
    parts: Seq<Seq<char>>,
    name: Seq<char>,
    index: int,
    node: NtfsNode,
)
    requires
        0 <= index <= parts.len(),
    ensures
        resolved_from(source, mft, geometry, parts.push(name), index, node) == (match resolved_from(
            source,
            mft,
            geometry,
            parts,
            index,
            node,
        ) {
            Ok(Some(found)) => child_of(source, mft, geometry, found.entry, name),
            other => other,
        }),
    decreases parts.len() - index,
{
    let longer = parts.push(name);
    if index < parts.len() {
        assert(longer[index] == parts[index]);
        if let Ok(Some(child)) = child_of(source, mft, geometry, node.entry, parts[index]) {
            lemma_child_from(source, mft, geometry, parts, name, index + 1, child);
        }
    } else {
        assert(longer[index] == name);
        if let Ok(Some(child)) = child_of(source, mft, geometry, node.entry, name) {
            assert(resolved_from(source, mft, geometry, longer, index + 1, child) == Ok::<
                Option<NtfsNode>,
                DriverError,
            >(Some(child)));
        }
    }
}

/// A file entry that a path leads to is the one with its entry number.
pub proof fn lemma_resolved_identified(
    source: DataSourceReference,
    mft: Content,
    geometry: NtfsGeometry,
    path: Seq<char>,
)
    ensures
        resolved(source, mft, geometry, path) matches Ok(Some(node)) ==> node_of(
            mft,
            geometry.mft_entry_size,
            node.entry_number,
            node.name,
        ) == Ok::<NtfsNode, DriverError>(node),
{
    if let Ok(root) = node_of(
        mft,
        geometry.mft_entry_size,
        NTFS_ROOT_DIRECTORY_IDENTIFIER,
        None,
    ) {
        lemma_identified_from(source, mft, geometry, path_parts(path), 0, root);
    }
}

proof fn lemma_identified_from(
    source: DataSourceReference,
    mft: Content,
    geometry: NtfsGeometry,
    parts: Seq<Seq<char>>,
    index: int,
    node: NtfsNode,
)
    requires
        node_of(mft, geometry.mft_entry_size, node.entry_number, node.name) == Ok::<
            NtfsNode,
            DriverError,
        >(node),
    ensures
        resolved_from(source, mft, geometry, parts, index, node) matches Ok(Some(found))
            ==> node_of(mft, geometry.mft_entry_size, found.entry_number, found.name) == Ok::<
            NtfsNode,
            DriverError,
        >(found),
    decreases parts.len() - index,
{
    if 0 <= index < parts.len() {
        if let Ok(Some(child)) = child_of(source, mft, geometry, node.entry, parts[index]) {
            lemma_identified_from(source, mft, geometry, parts, index + 1, child);
        }
    }
}

} // verus!
