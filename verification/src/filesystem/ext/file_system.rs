//! Ext file entries.

use std::sync::Arc;

use vstd::prelude::*;

use super::blocks::{
    extent_ranges, lemma_extent_ranges, lemma_number_ranges, lemma_range_extents,
    make_range_extents, number_ranges, range_extents_from, read_extent_ranges, read_number_ranges,
    EXT_BLOCK_LIMIT, ExtBlockRange,
};
use super::directory::{entries_from, lemma_entries_proper, no_entries, ExtDirectory, ExtEntries};
use super::places::{
    ascending_from, extents_place, holds_tree, lemma_extent_block, lemma_numbered_block,
    lemma_ranges_byte, numbered_block, place_of, tree_extents, ExtentTree,
};
use super::inode::{inode_of, ExtInode, ExtInodeInfo};
use super::superblock::{opened_volume, read_superblock, ExtGeometry};
use crate::error::DriverError;
use crate::filesystem::extents::{
    all_data, extent_entries, is_byte_at, is_data_start, is_opened, open_error, open_file_extents,
    read_file_extents, FileData, FileExtent,
};
use crate::filesystem::names::{
    find_last_named, is_proper_name, last_named, lemma_last_named, lemma_last_named_at,
};
use crate::filesystem::path::{
    is_absolute, lemma_child_parts, lemma_root_parts, path_parts, split_absolute_path,
};
use crate::scan::texts_view;
use crate::source::data_source::{Content, DataSource, DataSourceReference};
use crate::source::memory::MemoryDataSource;
use crate::text::chars_text;

verus! {

/// The inode number of the root directory.
pub const EXT_ROOT_DIRECTORY_IDENTIFIER: u32 = 2;

/// A file entry: its inode with the inode number, and its name if it was found by name.
pub struct ExtNode {
    pub inode_number: u32,
    pub inode: ExtInodeInfo,
    pub name: Option<Seq<char>>,
}

/// Whether the data of a file is stored in its inode.
pub open spec fn has_inline_data(geometry: ExtGeometry, inode: ExtInodeInfo) -> bool {
    geometry.format_version == 4 && inode.flags & 0x1000_0000 != 0
}

/// Whether the blocks of a file are those of an extents tree.
pub open spec fn has_extents(geometry: ExtGeometry, inode: ExtInodeInfo) -> bool {
    geometry.format_version == 4 && inode.flags & 0x8_0000 != 0
}

/// The number of blocks of a file.
pub open spec fn total_blocks(geometry: ExtGeometry, inode: ExtInodeInfo) -> u64 {
    let needed = (inode.data_size + geometry.block_size - 1) / geometry.block_size as int;
    if needed > inode.number_of_blocks {
        needed as u64
    } else {
        inode.number_of_blocks
    }
}

/// The block ranges of a file.
pub open spec fn ranges_of(content: Content, geometry: ExtGeometry, inode: ExtInodeInfo) -> Result<
    Seq<ExtBlockRange>,
    DriverError,
> {
    if has_extents(geometry, inode) {
        extent_ranges(
            content,
            geometry.block_size,
            total_blocks(geometry, inode),
            inode.data_reference,
        )
    } else {
        number_ranges(
            content,
            geometry.block_size,
            total_blocks(geometry, inode),
            inode.data_reference,
        )
    }
}

/// Where the data of a file is.
pub open spec fn data_of(content: Content, geometry: ExtGeometry, inode: ExtInodeInfo) -> Result<
    FileData,
    DriverError,
> {
    if has_inline_data(geometry, inode) {
        if inode.data_size > 60 {
            Err(DriverError::Unsupported)
        } else {
            Ok(FileData::Inline(inode.data_reference.take(inode.data_size as int)))
        }
    } else {
        match ranges_of(content, geometry, inode) {
            Err(error) => Err(error),
            Ok(ranges) => match range_extents_from(
                geometry.block_size,
                inode.data_size,
                ranges,
                0,
                Seq::empty(),
            ) {
                Err(error) => Err(error),
                Ok(extents) => Ok(FileData::Stored(extents)),
            },
        }
    }
}

/// The entries of a directory. Another file has none.
pub open spec fn entries_of(
    source: DataSourceReference,
    geometry: ExtGeometry,
    inode: ExtInodeInfo,
) -> Result<ExtEntries, DriverError> {
    if !inode.is_directory() {
        Ok(no_entries())
    } else {
        match all_data(source, data_of(source.content(), geometry, inode)) {
            Err(error) => Err(error),
            Ok(data) => entries_from(data, 0, no_entries()),
        }
    }
}

/// Whether a directory can be taken to hold entries, by a source that reads less than there is.
pub open spec fn may_hold(
    source: DataSourceReference,
    geometry: ExtGeometry,
    inode: ExtInodeInfo,
    entries: ExtEntries,
) -> bool {
    if !inode.is_directory() {
        entries == no_entries()
    } else {
        exists|data: Seq<u8>|
            #[trigger] is_data_start(source, data_of(source.content(), geometry, inode), data)
                && entries_from(data, 0, no_entries()) == Ok::<ExtEntries, DriverError>(entries)
    }
}

/// Whether a directory can be taken to hold a file entry with a name, or none.
pub open spec fn may_have_child(
    source: DataSourceReference,
    geometry: ExtGeometry,
    tables: Seq<u64>,
    inode: ExtInodeInfo,
    name: Seq<char>,
    child: Option<ExtNode>,
) -> bool {
    exists|entries: ExtEntries|
        #[trigger] may_hold(source, geometry, inode, entries) && match last_named(
            entries.names,
            name,
        ) {
            None => child is None,
            Some(at) => child is Some && node_of(
                source.content(),
                geometry,
                tables,
                entries.inode_numbers[at],
                Some(name),
            ) == Ok::<ExtNode, DriverError>(child->0),
        }
}

/// Whether the parts of a path from `index` on can be taken to lead from a file entry to another
/// one, or to none.
pub open spec fn may_lead(
    source: DataSourceReference,
    geometry: ExtGeometry,
    tables: Seq<u64>,
    parts: Seq<Seq<char>>,
    index: int,
    node: ExtNode,
    found: Option<ExtNode>,
) -> bool
    decreases parts.len() - index,
{
    if index < 0 || index >= parts.len() {
        found == Some(node)
    } else {
        exists|child: Option<ExtNode>|
            #[trigger] may_have_child(source, geometry, tables, node.inode, parts[index], child)
                && match child {
                None => found is None,
                Some(child) => may_lead(
                    source,
                    geometry,
                    tables,
                    parts,
                    index + 1,
                    child,
                    found,
                ),
            }
    }
}

/// The file entry with an inode number.
pub open spec fn node_of(
    content: Content,
    geometry: ExtGeometry,
    tables: Seq<u64>,
    inode_number: u32,
    name: Option<Seq<char>>,
) -> Result<ExtNode, DriverError> {
    match inode_of(content, geometry, tables, inode_number) {
        Err(error) => Err(error),
        Ok(inode) => Ok(ExtNode { inode_number, inode, name }),
    }
}

/// The entry of a directory with a name. Of several entries with one name the last one counts.
pub open spec fn child_of(
    source: DataSourceReference,
    geometry: ExtGeometry,
    tables: Seq<u64>,
    inode: ExtInodeInfo,
    name: Seq<char>,
) -> Result<Option<ExtNode>, DriverError> {
    match entries_of(source, geometry, inode) {
        Err(error) => Err(error),
        Ok(entries) => match last_named(entries.names, name) {
            None => Ok(None),
            Some(at) => match node_of(
                source.content(),
                geometry,
                tables,
                entries.inode_numbers[at],
                Some(name),
            ) {
                Err(error) => Err(error),
                Ok(node) => Ok(Some(node)),
            },
        },
    }
}

/// The file entry that the parts of a path from `index` on lead to, starting at a file entry.
pub open spec fn resolved_from(
    source: DataSourceReference,
    geometry: ExtGeometry,
    tables: Seq<u64>,
    parts: Seq<Seq<char>>,
    index: int,
    node: ExtNode,
) -> Result<Option<ExtNode>, DriverError>
    decreases parts.len() - index,
{
    if index < 0 || index >= parts.len() {
        Ok(Some(node))
    } else {
        match child_of(source, geometry, tables, node.inode, parts[index]) {
            Err(error) => Err(error),
            Ok(None) => Ok(None),
            Ok(Some(child)) => resolved_from(source, geometry, tables, parts, index + 1, child),
        }
    }
}

/// The file entry at a path, which has to be absolute.
pub open spec fn resolved(
    source: DataSourceReference,
    geometry: ExtGeometry,
    tables: Seq<u64>,
    path: Seq<char>,
) -> Result<Option<ExtNode>, DriverError> {
    if !is_absolute(path) {
        Ok(None)
    } else {
        match node_of(
            source.content(),
            geometry,
            tables,
            EXT_ROOT_DIRECTORY_IDENTIFIER,
            None,
        ) {
            Err(error) => Err(error),
            Ok(root) => resolved_from(source, geometry, tables, path_parts(path), 0, root),
        }
    }
}

/// An open ext volume: its source, what its superblock says, the block numbers of its inode tables
/// and its label.
pub struct ExtVolume {
    source: DataSourceReference,
    geometry: ExtGeometry,
    tables: Vec<u64>,
    label: Option<String>,
}

impl ExtVolume {
    /// The source of the volume.
    pub closed spec fn spec_source(&self) -> DataSourceReference {
        self.source
    }

    /// What the superblock says.
    pub closed spec fn spec_geometry(&self) -> ExtGeometry {
        self.geometry
    }

    /// The block numbers of the inode tables.
    pub closed spec fn spec_tables(&self) -> Seq<u64> {
        self.tables@
    }

    /// The label of the volume.
    pub closed spec fn spec_label(&self) -> Option<Seq<char>> {
        match self.label {
            Some(label) => Some(label@),
            None => None,
        }
    }

    #[verifier::type_invariant]
    spec fn well_formed(self) -> bool {
        self.geometry.is_usable()
    }
}

/// Immutable ext file entry.
pub struct ExtFileEntry {
    volume: Arc<ExtVolume>,
    inode_number: u32,
    inode: ExtInode,
    name: Option<String>,
}

impl ExtFileEntry {
    /// The volume that the file entry belongs to.
    pub closed spec fn spec_volume(&self) -> ExtVolume {
        *self.volume
    }

    /// The file entry.
    pub closed spec fn view(&self) -> ExtNode {
        ExtNode {
            inode_number: self.inode_number,
            inode: self.inode@,
            name: match self.name {
                Some(name) => Some(name@),
                None => None,
            },
        }
    }

    #[verifier::type_invariant]
    spec fn well_formed(self) -> bool {
        self.inode.is_sound()
    }

    fn new(volume: &Arc<ExtVolume>, inode_number: u32, name: Option<String>) -> (result: Result<
        Self,
        DriverError,
    >)
        ensures
            match result {
                Ok(entry) => {
                    &&& node_of(
                        volume.spec_source().content(),
                        volume.spec_geometry(),
                        volume.spec_tables(),
                        inode_number,
                        match name {
                            Some(name) => Some(name@),
                            None => None,
                        },
                    ) == Ok::<ExtNode, DriverError>(entry@)
                    &&& entry.spec_volume() == **volume
                },
                Err(error) => volume.spec_source().reliable() ==> node_of(
                    volume.spec_source().content(),
                    volume.spec_geometry(),
                    volume.spec_tables(),
                    inode_number,
                    match name {
                        Some(name) => Some(name@),
                        None => None,
                    },
                ) == Err::<ExtNode, DriverError>(error),
            },
    {
        proof {
            use_type_invariant(&**volume);
        }
        let inode: ExtInode = ExtInode::read(
            &volume.source,
            &volume.geometry,
            &volume.tables,
            inode_number,
        )?;
        Ok(ExtFileEntry { volume: volume.clone(), inode_number, inode, name })
    }

    /// Retrieves the inode number.
    pub fn inode_number(&self) -> (inode_number: u32)
        ensures
            inode_number == self@.inode_number,
    {
        self.inode_number
    }

    /// Retrieves the name.
    pub fn name(&self) -> (name: Option<&str>)
        ensures
            match name {
                Some(name) => self@.name == Some(name@),
                None => self@.name is None,
            },
    {
        match &self.name {
            Some(name) => Some(name.as_str()),
            None => None,
        }
    }

    /// Retrieves the size.
    pub fn size(&self) -> (size: u64)
        ensures
            size == (if self@.inode.is_regular_file() || self@.inode.is_symbolic_link() {
                self@.inode.data_size
            } else {
                0
            }),
    {
        let file_type: u16 = self.inode.file_mode / 0x1000;
        if file_type == 8 || file_type == 0xa {
            self.inode.data_size
        } else {
            0
        }
    }

    /// Determines if the file entry is a directory.
    pub fn is_directory(&self) -> (is_directory: bool)
        ensures
            is_directory == self@.inode.is_directory(),
    {
        self.inode.file_mode / 0x1000 == 4
    }

    /// Determines if the file entry is a symbolic link.
    pub fn is_symbolic_link(&self) -> (is_symbolic_link: bool)
        ensures
            is_symbolic_link == self@.inode.is_symbolic_link(),
    {
        self.inode.file_mode / 0x1000 == 0xa
    }

    fn read_inline_data(&self) -> (result: Result<Option<Vec<u8>>, DriverError>)
        ensures
            match result {
                Ok(Some(data)) => {
                    &&& has_inline_data(self.spec_volume().spec_geometry(), self@.inode)
                    &&& self@.inode.data_size <= 60
                    &&& data@ == self@.inode.data_reference.take(self@.inode.data_size as int)
                },
                Ok(None) => !has_inline_data(self.spec_volume().spec_geometry(), self@.inode),
                Err(error) => {
                    &&& has_inline_data(self.spec_volume().spec_geometry(), self@.inode)
                    &&& self@.inode.data_size > 60
                    &&& error == DriverError::Unsupported
                },
            },
    {
        proof {
            use_type_invariant(self);
        }
        if self.volume.geometry.format_version != 4 || self.inode.flags & 0x1000_0000 == 0 {
            return Ok(None);
        }
        if self.inode.data_size > 60 {
            return Err(DriverError::Unsupported);
        }
        let data: &[u8] = vstd::slice::slice_subrange(
            self.inode.data_reference.as_slice(),
            0,
            self.inode.data_size as usize,
        );
        assert(data@ =~= self.inode.data_reference@.take(self.inode.data_size as int));
        Ok(Some(vstd::slice::slice_to_vec(data)))
    }

    fn read_extents(&self) -> (result: Result<Vec<FileExtent>, DriverError>)
        requires
            !has_inline_data(self.spec_volume().spec_geometry(), self@.inode),
        ensures
            match result {
                Ok(extents) => data_of(
                    self.spec_volume().spec_source().content(),
                    self.spec_volume().spec_geometry(),
                    self@.inode,
                ) == Ok::<FileData, DriverError>(FileData::Stored(extents@)),
                Err(error) => self.spec_volume().spec_source().reliable() ==> data_of(
                    self.spec_volume().spec_source().content(),
                    self.spec_volume().spec_geometry(),
                    self@.inode,
                ) == Err::<FileData, DriverError>(error),
            },
    {
        proof {
            use_type_invariant(self);
            use_type_invariant(&*self.volume);
        }
        let geometry: ExtGeometry = self.volume.geometry;
        let total: u64 = count_blocks(geometry.block_size, &self.inode);
        let reference: &[u8] = self.inode.data_reference.as_slice();
        let ranges: Vec<ExtBlockRange> = if geometry.format_version == 4 && self.inode.flags
            & 0x8_0000 != 0 {
            read_extent_ranges(&self.volume.source, geometry.block_size, total, reference)?
        } else {
            read_number_ranges(&self.volume.source, geometry.block_size, total, reference)?
        };
        make_range_extents(geometry.block_size, self.inode.data_size, &ranges)
    }

    /// Opens the default data source.
    pub fn open_source(&self) -> (result: Result<Option<DataSourceReference>, DriverError>)
        ensures
            match result {
                Ok(Some(logical)) => {
                    &&& self@.inode.is_regular_file()
                    &&& data_of(
                        self.spec_volume().spec_source().content(),
                        self.spec_volume().spec_geometry(),
                        self@.inode,
                    ) is Ok
                    &&& is_opened(
                        logical,
                        self.spec_volume().spec_source(),
                        data_of(
                            self.spec_volume().spec_source().content(),
                            self.spec_volume().spec_geometry(),
                            self@.inode,
                        )->Ok_0,
                    )
                },
                Ok(None) => !self@.inode.is_regular_file(),
                Err(error) => {
                    &&& self@.inode.is_regular_file()
                    &&& self.spec_volume().spec_source().reliable() ==> open_error(
                        self.spec_volume().spec_source(),
                        data_of(
                            self.spec_volume().spec_source().content(),
                            self.spec_volume().spec_geometry(),
                            self@.inode,
                        ),
                    ) == Some(error)
                },
            },
    {
        if self.inode.file_mode / 0x1000 != 8 {
            return Ok(None);
        }
        match self.read_inline_data()? {
            Some(data) => Ok(Some(MemoryDataSource::new(data).into_reference())),
            None => {
                let extents: Vec<FileExtent> = self.read_extents()?;
                Ok(Some(open_file_extents(&self.volume.source, &extents)?))
            },
        }
    }

    fn read_directory(&self) -> (result: Result<ExtDirectory, DriverError>)
        ensures
            result matches Ok(directory) ==> {
                &&& directory.is_sound()
                &&& may_hold(
                    self.spec_volume().spec_source(),
                    self.spec_volume().spec_geometry(),
                    self@.inode,
                    directory@,
                )
            },
            self.spec_volume().spec_source().reliable() ==> match result {
                Ok(directory) => entries_of(
                    self.spec_volume().spec_source(),
                    self.spec_volume().spec_geometry(),
                    self@.inode,
                ) == Ok::<ExtEntries, DriverError>(directory@),
                Err(error) => entries_of(
                    self.spec_volume().spec_source(),
                    self.spec_volume().spec_geometry(),
                    self@.inode,
                ) == Err::<ExtEntries, DriverError>(error),
            },
    {
        if !self.is_directory() {
            return Ok(ExtDirectory::new());
        }
        let data: Vec<u8> = match self.read_inline_data()? {
            Some(data) => data,
            None => {
                let extents: Vec<FileExtent> = self.read_extents()?;
                read_file_extents(&self.volume.source, &extents)?
            },
        };
        assert(is_data_start(
            self.volume.source,
            data_of(
                self.spec_volume().spec_source().content(),
                self.spec_volume().spec_geometry(),
                self@.inode,
            ),
            data@,
        ));
        ExtDirectory::read(data.as_slice())
    }

    fn sub_file_entry_by_name(&self, name: &Vec<char>) -> (result: Result<
        Option<ExtFileEntry>,
        DriverError,
    >)
        ensures
            result matches Ok(child) ==> may_have_child(
                self.spec_volume().spec_source(),
                self.spec_volume().spec_geometry(),
                self.spec_volume().spec_tables(),
                self@.inode,
                name@,
                node_view(child),
            ),
            result matches Ok(Some(entry)) ==> {
                &&& entry.spec_volume() == self.spec_volume()
                &&& node_of(
                    self.spec_volume().spec_source().content(),
                    self.spec_volume().spec_geometry(),
                    self.spec_volume().spec_tables(),
                    entry@.inode_number,
                    Some(name@),
                ) == Ok::<ExtNode, DriverError>(entry@)
            },
            self.spec_volume().spec_source().reliable() ==> match result {
                Ok(Some(entry)) => child_of(
                    self.spec_volume().spec_source(),
                    self.spec_volume().spec_geometry(),
                    self.spec_volume().spec_tables(),
                    self@.inode,
                    name@,
                ) == Ok::<Option<ExtNode>, DriverError>(Some(entry@)),
                Ok(None) => child_of(
                    self.spec_volume().spec_source(),
                    self.spec_volume().spec_geometry(),
                    self.spec_volume().spec_tables(),
                    self@.inode,
                    name@,
                ) == Ok::<Option<ExtNode>, DriverError>(None),
                Err(error) => child_of(
                    self.spec_volume().spec_source(),
                    self.spec_volume().spec_geometry(),
                    self.spec_volume().spec_tables(),
                    self@.inode,
                    name@,
                ) == Err::<Option<ExtNode>, DriverError>(error),
            },
    {
        let directory: ExtDirectory = self.read_directory()?;
        let ghost entries = directory@;
        assert(may_hold(
            self.spec_volume().spec_source(),
            self.spec_volume().spec_geometry(),
            self@.inode,
            entries,
        ));
        match find_last_named(&directory.names, name.as_slice()) {
            None => Ok(None),
            Some(at) => {
                let inode_number: u32 = directory.inode_numbers[at];
                let entry = Self::new(
                    &self.volume,
                    inode_number,
                    Some(chars_text(name.as_slice())),
                )?;
                Ok(Some(entry))
            },
        }
    }
}

/// What is known of a file entry, if there is one.
pub open spec fn node_view(entry: Option<ExtFileEntry>) -> Option<ExtNode> {
    match entry {
        Some(entry) => Some(entry@),
        None => None,
    }
}

fn count_blocks(block_size: u32, inode: &ExtInode) -> (total: u64)
    requires
        1024 <= block_size,
        inode.is_sound(),
    ensures
        forall|geometry: ExtGeometry|
            geometry.block_size == block_size ==> total == #[trigger] total_blocks(
                geometry,
                inode@,
            ),
        total <= EXT_BLOCK_LIMIT,
{
    let size: u64 = block_size as u64;
    proof {
        let d = inode.data_size as int;
        let b = block_size as int;
        assert(d / b <= 0x40_0000_0000_0000) by (nonlinear_arith)
            requires
                0 <= d <= u64::MAX,
                1024 <= b,
        ;
        assert((d + b - 1) / b == d / b + (if d % b == 0 {
            0int
        } else {
            1int
        })) by (nonlinear_arith)
            requires
                0 <= d,
                1024 <= b,
        ;
    }
    let needed: u64 = inode.data_size / size + if inode.data_size % size == 0 {
        0u64
    } else {
        1u64
    };
    if needed > inode.number_of_blocks {
        needed
    } else {
        inode.number_of_blocks
    }
}

/// Immutable ext file system.
pub struct ExtFileSystem {
    volume: Arc<ExtVolume>,
}

impl ExtFileSystem {
    /// The volume of the file system.
    pub closed spec fn spec_volume(&self) -> ExtVolume {
        *self.volume
    }

    /// Opens and parses an ext file system.
    pub fn open(source: DataSourceReference) -> (result: Result<Self, DriverError>)
        ensures
            match result {
                Ok(file_system) => {
                    &&& file_system.spec_volume().spec_source() == source
                    &&& opened_volume(source.content()) == Ok::<
                        (ExtGeometry, Seq<u64>, Option<Seq<char>>),
                        DriverError,
                    >(
                        (
                            file_system.spec_volume().spec_geometry(),
                            file_system.spec_volume().spec_tables(),
                            file_system.spec_volume().spec_label(),
                        ),
                    )
                },
                Err(error) => source.reliable() ==> opened_volume(source.content()) == Err::<
                    (ExtGeometry, Seq<u64>, Option<Seq<char>>),
                    DriverError,
                >(error),
            },
    {
        let (geometry, tables, label) = read_superblock(&source)?;
        Ok(ExtFileSystem { volume: Arc::new(ExtVolume { source, geometry, tables, label }) })
    }

    /// Retrieves the format version.
    pub fn format_version(&self) -> (format_version: u8)
        ensures
            format_version == self.spec_volume().spec_geometry().format_version,
    {
        self.volume.geometry.format_version
    }

    /// Retrieves the compatible feature flags.
    pub fn compatible_feature_flags(&self) -> (flags: u32)
        ensures
            flags == self.spec_volume().spec_geometry().compatible_feature_flags,
    {
        self.volume.geometry.compatible_feature_flags
    }

    /// Retrieves the incompatible feature flags.
    pub fn incompatible_feature_flags(&self) -> (flags: u32)
        ensures
            flags == self.spec_volume().spec_geometry().incompatible_feature_flags,
    {
        self.volume.geometry.incompatible_feature_flags
    }

    /// Retrieves the read-only compatible feature flags.
    pub fn read_only_compatible_feature_flags(&self) -> (flags: u32)
        ensures
            flags == self.spec_volume().spec_geometry().read_only_compatible_feature_flags,
    {
        self.volume.geometry.read_only_compatible_feature_flags
    }

    /// Retrieves the volume label.
    pub fn volume_label(&self) -> (volume_label: Option<&str>)
        ensures
            match volume_label {
                Some(label) => self.spec_volume().spec_label() == Some(label@),
                None => self.spec_volume().spec_label() is None,
            },
    {
        match &self.volume.label {
            Some(label) => Some(label.as_str()),
            None => None,
        }
    }

    /// Retrieves the root directory.
    pub fn root_directory(&self) -> (result: Result<ExtFileEntry, DriverError>)
        ensures
            match result {
                Ok(entry) => {
                    &&& node_of(
                        self.spec_volume().spec_source().content(),
                        self.spec_volume().spec_geometry(),
                        self.spec_volume().spec_tables(),
                        EXT_ROOT_DIRECTORY_IDENTIFIER,
                        None,
                    ) == Ok::<ExtNode, DriverError>(entry@)
                    &&& entry.spec_volume() == self.spec_volume()
                },
                Err(error) => self.spec_volume().spec_source().reliable() ==> node_of(
                    self.spec_volume().spec_source().content(),
                    self.spec_volume().spec_geometry(),
                    self.spec_volume().spec_tables(),
                    EXT_ROOT_DIRECTORY_IDENTIFIER,
                    None,
                ) == Err::<ExtNode, DriverError>(error),
            },
    {
        self.file_entry_by_identifier(EXT_ROOT_DIRECTORY_IDENTIFIER)
    }

    /// Retrieves a file entry by inode number.
    pub fn file_entry_by_identifier(&self, inode_number: u32) -> (result: Result<
        ExtFileEntry,
        DriverError,
    >)
        ensures
            match result {
                Ok(entry) => {
                    &&& node_of(
                        self.spec_volume().spec_source().content(),
                        self.spec_volume().spec_geometry(),
                        self.spec_volume().spec_tables(),
                        inode_number,
                        None,
                    ) == Ok::<ExtNode, DriverError>(entry@)
                    &&& entry.spec_volume() == self.spec_volume()
                },
                Err(error) => self.spec_volume().spec_source().reliable() ==> node_of(
                    self.spec_volume().spec_source().content(),
                    self.spec_volume().spec_geometry(),
                    self.spec_volume().spec_tables(),
                    inode_number,
                    None,
                ) == Err::<ExtNode, DriverError>(error),
            },
    {
        ExtFileEntry::new(&self.volume, inode_number, None)
    }

    /// Retrieves a file entry by absolute path.
    pub fn file_entry_by_path(&self, path: &str) -> (result: Result<
        Option<ExtFileEntry>,
        DriverError,
    >)
        ensures
            !is_absolute(path@) ==> result matches Ok(None),
            is_absolute(path@) ==> (result matches Ok(found) ==> {
                let root = node_of(
                    self.spec_volume().spec_source().content(),
                    self.spec_volume().spec_geometry(),
                    self.spec_volume().spec_tables(),
                    EXT_ROOT_DIRECTORY_IDENTIFIER,
                    None,
                );
                &&& root is Ok
                &&& may_lead(
                    self.spec_volume().spec_source(),
                    self.spec_volume().spec_geometry(),
                    self.spec_volume().spec_tables(),
                    path_parts(path@),
                    0,
                    root->Ok_0,
                    node_view(found),
                )
            }),
            result matches Ok(Some(entry)) ==> {
                &&& entry.spec_volume() == self.spec_volume()
                &&& node_of(
                    self.spec_volume().spec_source().content(),
                    self.spec_volume().spec_geometry(),
                    self.spec_volume().spec_tables(),
                    entry@.inode_number,
                    entry@.name,
                ) == Ok::<ExtNode, DriverError>(entry@)
            },
            self.spec_volume().spec_source().reliable() ==> match result {
                Ok(Some(entry)) => resolved(
                    self.spec_volume().spec_source(),
                    self.spec_volume().spec_geometry(),
                    self.spec_volume().spec_tables(),
                    path@,
                ) == Ok::<Option<ExtNode>, DriverError>(Some(entry@)),
                Ok(None) => resolved(
                    self.spec_volume().spec_source(),
                    self.spec_volume().spec_geometry(),
                    self.spec_volume().spec_tables(),
                    path@,
                ) == Ok::<Option<ExtNode>, DriverError>(None),
                Err(error) => resolved(
                    self.spec_volume().spec_source(),
                    self.spec_volume().spec_geometry(),
                    self.spec_volume().spec_tables(),
                    path@,
                ) == Err::<Option<ExtNode>, DriverError>(error),
            },
    {
        let ghost source = self.spec_volume().spec_source();
        let ghost geometry = self.spec_volume().spec_geometry();
        let ghost tables = self.spec_volume().spec_tables();
        let ghost whole = resolved(source, geometry, tables, path@);
        let parts: Vec<Vec<char>> = match split_absolute_path(path) {
            Some(parts) => parts,
            None => return Ok(None),
        };
        let mut entry: ExtFileEntry = self.root_directory()?;
        let ghost root = entry@;
        let ghost views = texts_view(parts@);
        let mut index: usize = 0;
        while index < parts.len()
            invariant
                index <= parts@.len(),
                views == texts_view(parts@),
                views == path_parts(path@),
                node_of(
                    source.content(),
                    geometry,
                    tables,
                    EXT_ROOT_DIRECTORY_IDENTIFIER,
                    None,
                ) == Ok::<ExtNode, DriverError>(root),
                forall|found: Option<ExtNode>|
                    #[trigger] may_lead(
                        source,
                        geometry,
                        tables,
                        views,
                        index as int,
                        entry@,
                        found,
                    ) ==> may_lead(source, geometry, tables, views, 0, root, found),
                source == self.spec_volume().spec_source(),
                geometry == self.spec_volume().spec_geometry(),
                tables == self.spec_volume().spec_tables(),
                is_absolute(path@),
                entry.spec_volume() == self.spec_volume(),
                node_of(
                    source.content(),
                    geometry,
                    tables,
                    entry@.inode_number,
                    entry@.name,
                ) == Ok::<ExtNode, DriverError>(entry@),
                whole == resolved(source, geometry, tables, path@),
                source.reliable() ==> whole == resolved_from(
                    source,
                    geometry,
                    tables,
                    texts_view(parts@),
                    index as int,
                    entry@,
                ),
            decreases parts@.len() - index,
        {
            assert(texts_view(parts@)[index as int] == parts@[index as int]@);
            let ghost before = entry@;
            let found = entry.sub_file_entry_by_name(&parts[index])?;
            proof {
                assert(may_have_child(
                    source,
                    geometry,
                    tables,
                    before.inode,
                    views[index as int],
                    node_view(found),
                ));
                if found is None {
                    assert(may_lead(source, geometry, tables, views, index as int, before, None));
                } else {
                    assert forall|end: Option<ExtNode>|
                        #[trigger] may_lead(
                            source,
                            geometry,
                            tables,
                            views,
                            index + 1,
                            found->0@,
                            end,
                        ) implies may_lead(source, geometry, tables, views, 0, root, end) by {
                        assert(may_lead(
                            source,
                            geometry,
                            tables,
                            views,
                            index as int,
                            before,
                            end,
                        ));
                    }
                }
            }
            entry = match found {
                Some(child) => child,
                None => return Ok(None),
            };
            index += 1;
        }
        assert(may_lead(
            source,
            geometry,
            tables,
            views,
            index as int,
            entry@,
            Some(entry@),
        ));
        Ok(Some(entry))
    }
}

/// The root path leads to the root directory.
pub proof fn lemma_root_path(source: DataSourceReference, geometry: ExtGeometry, tables: Seq<u64>)
    ensures
        resolved(source, geometry, tables, seq!['/']) == (match node_of(
            source.content(),
            geometry,
            tables,
            EXT_ROOT_DIRECTORY_IDENTIFIER,
            None,
        ) {
            Err(error) => Err(error),
            Ok(root) => Ok::<Option<ExtNode>, DriverError>(Some(root)),
        }),
{
    lemma_root_parts();
}

/// The path of an entry of a directory, which is that of the directory, a separator and the name of
/// the entry, leads to the entry.
pub proof fn lemma_child_path(
    source: DataSourceReference,
    geometry: ExtGeometry,
    tables: Seq<u64>,
    path: Seq<char>,
    name: Seq<char>,
)
    requires
        is_absolute(path),
        name.len() > 0,
        !name.contains('/'),
    ensures
        resolved(source, geometry, tables, path + seq!['/'] + name) == (match resolved(
            source,
            geometry,
            tables,
            path,
        ) {
            Ok(Some(node)) => child_of(source, geometry, tables, node.inode, name),
            other => other,
        }),
{
    lemma_child_parts(path, name);
    if let Ok(root) = node_of(
        source.content(),
        geometry,
        tables,
        EXT_ROOT_DIRECTORY_IDENTIFIER,
        None,
    ) {
        lemma_child_from(source, geometry, tables, path_parts(path), name, 0, root);
    }
}

proof fn lemma_child_from(
    source: DataSourceReference,
    geometry: ExtGeometry,
    tables: Seq<u64>,
    parts: Seq<Seq<char>>,
    name: Seq<char>,
    index: int,
    node: ExtNode,
)
    requires
        0 <= index <= parts.len(),
    ensures
        resolved_from(source, geometry, tables, parts.push(name), index, node) == (
        match resolved_from(source, geometry, tables, parts, index, node) {
            Ok(Some(found)) => child_of(source, geometry, tables, found.inode, name),
            other => other,
        }),
    decreases parts.len() - index,
{
    let longer = parts.push(name);
    if index < parts.len() {
        assert(longer[index] == parts[index]);
        if let Ok(Some(child)) = child_of(source, geometry, tables, node.inode, parts[index]) {
            lemma_child_from(source, geometry, tables, parts, name, index + 1, child);
        }
    } else {
        assert(longer[index] == name);
        if let Ok(Some(child)) = child_of(source, geometry, tables, node.inode, name) {
            assert(resolved_from(source, geometry, tables, longer, index + 1, child) == Ok::<
                Option<ExtNode>,
                DriverError,
            >(Some(child)));
        }
    }
}

/// An open regular file is as large as its inode says.
pub proof fn lemma_file_size(
    source: DataSourceReference,
    geometry: ExtGeometry,
    inode: ExtInodeInfo,
    logical: DataSourceReference,
)
    requires
        geometry.is_usable(),
        inode.data_reference.len() == 60,
        inode.number_of_blocks <= 0x1_0000_0000_0000,
        data_of(source.content(), geometry, inode) is Ok,
        is_opened(logical, source, data_of(source.content(), geometry, inode)->Ok_0),
    ensures
        logical.content().size == inode.data_size,
{
    let content = source.content();
    if !has_inline_data(geometry, inode) {
        let ranges = ranges_of(content, geometry, inode)->Ok_0;
        let extents = range_extents_from(
            geometry.block_size,
            inode.data_size,
            ranges,
            0,
            Seq::empty(),
        )->Ok_0;
        let total = total_blocks(geometry, inode);
        lemma_total_blocks(geometry, inode);
        if has_extents(geometry, inode) {
            lemma_extent_ranges(content, geometry.block_size, total, inode.data_reference);
        } else {
            lemma_number_ranges(content, geometry.block_size, total, inode.data_reference);
        }
        assert(extent_entries(source, Seq::<FileExtent>::empty()).len() == 0);
        lemma_range_extents(
            source,
            geometry.block_size,
            inode.data_size,
            total,
            ranges,
            0,
            Seq::empty(),
        );
    }
}

/// Every byte of a file with block numbers lies in the block that the numbers lead to, and is zero
/// where one of them is zero.
pub proof fn lemma_numbered_byte(
    source: DataSourceReference,
    geometry: ExtGeometry,
    inode: ExtInodeInfo,
    logical: DataSourceReference,
    block: int,
    relative_offset: int,
)
    requires
        geometry.is_usable(),
        inode.data_reference.len() == 60,
        inode.number_of_blocks <= 0x1_0000_0000_0000,
        geometry.format_version != 4 || inode.flags & 0x1008_0000 == 0,
        data_of(source.content(), geometry, inode) is Ok,
        is_opened(logical, source, data_of(source.content(), geometry, inode)->Ok_0),
        0 <= block,
        0 <= relative_offset < geometry.block_size,
        block * geometry.block_size + relative_offset < inode.data_size,
    ensures
        is_byte_at(
            logical.content(),
            block * geometry.block_size + relative_offset,
            source.content(),
            match place_of(
                numbered_block(source.content(), geometry.block_size, inode.data_reference, block),
            ) {
                None => None,
                Some(number) => Some(number * geometry.block_size + relative_offset),
            },
        ),
{
    let flags = inode.flags;
    assert(flags & 0x1008_0000 == 0 ==> flags & 0x1000_0000 == 0 && flags & 0x8_0000 == 0)
        by (bit_vector);
    let total = total_blocks(geometry, inode);
    lemma_total_blocks(geometry, inode);
    lemma_block_of_byte(geometry, inode, block, relative_offset);
    lemma_number_ranges(source.content(), geometry.block_size, total, inode.data_reference);
    lemma_numbered_block(
        source.content(),
        geometry.block_size,
        total,
        inode.data_reference,
        block,
    );
    lemma_ranges_byte(
        source,
        geometry.block_size,
        inode.data_size,
        total,
        ranges_of(source.content(), geometry, inode)->Ok_0,
        block * geometry.block_size + relative_offset,
    );
}

/// Every byte of a file with extents lies where the extent that covers its block says, and is zero
/// where there is none or it is not initialized.
pub proof fn lemma_extents_byte(
    source: DataSourceReference,
    geometry: ExtGeometry,
    inode: ExtInodeInfo,
    tree: ExtentTree,
    logical: DataSourceReference,
    block: int,
    relative_offset: int,
)
    requires
        geometry.is_usable(),
        inode.data_reference.len() == 60,
        inode.number_of_blocks <= 0x1_0000_0000_0000,
        geometry.format_version == 4,
        inode.flags & 0x8_0000 != 0,
        inode.flags & 0x1000_0000 == 0,
        holds_tree(source.content(), geometry.block_size, inode.data_reference, tree),
        tree.depth() <= 5,
        ascending_from(tree_extents(tree), 0),
        data_of(source.content(), geometry, inode) is Ok,
        is_opened(logical, source, data_of(source.content(), geometry, inode)->Ok_0),
        0 <= block,
        0 <= relative_offset < geometry.block_size,
        block * geometry.block_size + relative_offset < inode.data_size,
    ensures
        is_byte_at(
            logical.content(),
            block * geometry.block_size + relative_offset,
            source.content(),
            match extents_place(tree_extents(tree), block) {
                None => None,
                Some(number) => Some(number * geometry.block_size + relative_offset),
            },
        ),
{
    let total = total_blocks(geometry, inode);
    lemma_total_blocks(geometry, inode);
    lemma_block_of_byte(geometry, inode, block, relative_offset);
    lemma_extent_ranges(source.content(), geometry.block_size, total, inode.data_reference);
    lemma_extent_block(
        source.content(),
        geometry.block_size,
        total,
        inode.data_reference,
        tree,
        block,
    );
    lemma_ranges_byte(
        source,
        geometry.block_size,
        inode.data_size,
        total,
        ranges_of(source.content(), geometry, inode)->Ok_0,
        block * geometry.block_size + relative_offset,
    );
}

proof fn lemma_block_of_byte(
    geometry: ExtGeometry,
    inode: ExtInodeInfo,
    block: int,
    relative_offset: int,
)
    requires
        geometry.is_usable(),
        inode.number_of_blocks <= 0x1_0000_0000_0000,
        0 <= block,
        0 <= relative_offset < geometry.block_size,
        block * geometry.block_size + relative_offset < inode.data_size,
    ensures
        0 <= block < total_blocks(geometry, inode),
        0 <= block * geometry.block_size,
        (block * geometry.block_size + relative_offset) / geometry.block_size as int == block,
        (block * geometry.block_size + relative_offset) % geometry.block_size as int
            == relative_offset,
{
    let b = geometry.block_size as int;
    let total = total_blocks(geometry, inode) as int;
    lemma_total_blocks(geometry, inode);
    vstd::arithmetic::div_mod::lemma_fundamental_div_mod_converse(
        block * b + relative_offset,
        b,
        block,
        relative_offset,
    );
    assert(block < total && 0 <= block * b) by (nonlinear_arith)
        requires
            block * b + relative_offset < total * b,
            0 <= relative_offset,
            0 < b,
            0 <= block,
    ;
}

/// The blocks of a file hold its data.
proof fn lemma_total_blocks(geometry: ExtGeometry, inode: ExtInodeInfo)
    requires
        geometry.is_usable(),
        inode.number_of_blocks <= 0x1_0000_0000_0000,
    ensures
        inode.data_size <= total_blocks(geometry, inode) * geometry.block_size,
        total_blocks(geometry, inode) <= EXT_BLOCK_LIMIT,
{
    let d = inode.data_size as int;
    let b = geometry.block_size as int;
    let needed = (d + b - 1) / b;
    let total = total_blocks(geometry, inode) as int;
    assert(0 <= needed <= 0x100_0000_0000_0000 && d <= needed * b) by (nonlinear_arith)
        requires
            0 <= d <= u64::MAX,
            1024 <= b <= 0x8000_0000,
            needed == (d + b - 1) / b,
    ;
    assert(needed * b <= total * b) by (nonlinear_arith)
        requires
            needed <= total,
            0 < b,
    ;
}

/// A file whose data is stored in its inode holds the first bytes of the 60 that else refer to blocks, as
/// many as its size says. Only in format version 4 can data be stored so, where flag 28 is set.
pub proof fn lemma_inline_byte(
    source: DataSourceReference,
    geometry: ExtGeometry,
    inode: ExtInodeInfo,
    logical: DataSourceReference,
    offset: int,
)
    requires
        geometry.format_version == 4,
        inode.flags & 0x1000_0000 != 0,
        inode.data_reference.len() == 60,
        0 <= offset < inode.data_size <= 60,
        is_opened(logical, source, data_of(source.content(), geometry, inode)->Ok_0),
    ensures
        data_of(source.content(), geometry, inode) is Ok,
        logical.content().size == inode.data_size,
        logical.content().bytes.contains_key(offset),
        logical.content().bytes[offset] == inode.data_reference[offset],
{
}

/// An entry of a directory leads to the inode with its number. Of several entries with one name the last
/// one counts.
pub proof fn lemma_entry_inode(
    source: DataSourceReference,
    geometry: ExtGeometry,
    tables: Seq<u64>,
    inode: ExtInodeInfo,
    entries: ExtEntries,
    index: int,
)
    requires
        entries_of(source, geometry, inode) == Ok::<ExtEntries, DriverError>(entries),
        0 <= index < entries.names.len(),
        forall|i: int|
            index < i < entries.names.len() ==> #[trigger] entries.names[i] != entries.names[index],
    ensures
        child_of(source, geometry, tables, inode, entries.names[index]) == (match inode_of(
            source.content(),
            geometry,
            tables,
            entries.inode_numbers[index],
        ) {
            Err(error) => Err(error),
            Ok(child) => Ok::<Option<ExtNode>, DriverError>(
                Some(
                    ExtNode {
                        inode_number: entries.inode_numbers[index],
                        inode: child,
                        name: Some(entries.names[index]),
                    },
                ),
            ),
        }),
{
    lemma_last_named_at(entries.names, index);
}

/// The names that stand for a directory itself and for its parent lead to no entry.
pub proof fn lemma_dots(
    source: DataSourceReference,
    geometry: ExtGeometry,
    tables: Seq<u64>,
    inode: ExtInodeInfo,
    name: Seq<char>,
)
    requires
        !is_proper_name(name),
    ensures
        child_of(source, geometry, tables, inode, name) matches Ok(child) ==> child is None,
{
    if inode.is_directory() {
        if let Ok(data) = all_data(source, data_of(source.content(), geometry, inode)) {
            lemma_entries_proper(data, 0, no_entries());
        }
    }
    if let Ok(entries) = entries_of(source, geometry, inode) {
        lemma_last_named(entries.names, name);
    }
}

} // verus!
