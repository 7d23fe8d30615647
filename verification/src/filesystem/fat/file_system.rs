//! FAT file entries.

use vstd::prelude::*;

use super::allocation_table::{
    are_linked, chain_from, is_cluster, lemma_chain_stored, read_cluster_chain,
};
use super::boot_record::{boot_of, FatBootRecord, FatFormat, FatGeometry};
use super::directory::{
    add_clusters, get_cluster_offset, is_directory, no_listing, root_listing, FatDirectory,
    FatDirectoryEntry, FatEntryInfo, FatListing,
};
use crate::error::DriverError;
use crate::filesystem::extents::{
    extent_entries, extent_places, file_size, is_byte_at, is_opened, lemma_placed_byte, open_error,
    open_file_extents, FileData, FileExtent,
};
use crate::filesystem::visited::are_distinct;
use crate::filesystem::names::{count_distinct, distinct_count, find_last_named, last_named};
use crate::filesystem::path::{
    is_absolute, lemma_child_parts, lemma_root_parts, path_parts, split_absolute_path,
};
use crate::scan::{lowercase, lowercase_text, texts_view};
use crate::source::data_source::{Content, DataSource, DataSourceReference};
use crate::source::memory::MemoryDataSource;
use crate::text::{chars_text, text_chars};

verus! {

/// A file entry: what its directory entry says. The root directory has none.
pub struct FatNode {
    pub identifier: u32,
    pub entry: Option<FatEntryInfo>,
}

impl FatNode {
    /// Whether the file entry is a directory.
    pub open spec fn is_directory(self) -> bool {
        match self.entry {
            Some(entry) => is_directory(entry.file_attribute_flags),
            None => true,
        }
    }
}

/// The root directory. A file system can lack one.
pub open spec fn root_node(geometry: FatGeometry) -> Result<FatNode, DriverError> {
    if geometry.root_directory_size > 0 {
        Ok(
            FatNode {
                identifier: (geometry.root_directory_offset % 0x1_0000_0000) as u32,
                entry: None,
            },
        )
    } else if geometry.root_directory_cluster_block_number < 2 {
        Err(DriverError::Invalid)
    } else {
        Ok(
            FatNode {
                identifier: (geometry.cluster_offset(geometry.root_directory_cluster_block_number)
                    % 0x1_0000_0000) as u32,
                entry: None,
            },
        )
    }
}

/// The listing of a directory. Another file has an empty one.
pub open spec fn listing_of(content: Content, geometry: FatGeometry, node: FatNode) -> Result<
    FatListing,
    DriverError,
> {
    if !node.is_directory() {
        Ok(no_listing())
    } else {
        match node.entry {
            None => root_listing(content, geometry),
            Some(entry) => add_clusters(
                content,
                geometry,
                entry.data_start_cluster,
                Seq::empty(),
                no_listing(),
            ),
        }
    }
}

/// The entry of a directory with a name. The case of ASCII letters does not matter. Of several
/// entries with one name the last one counts.
pub open spec fn child_of(content: Content, geometry: FatGeometry, node: FatNode, name: Seq<char>) -> Result<
    Option<FatNode>,
    DriverError,
> {
    match listing_of(content, geometry, node) {
        Err(error) => Err(error),
        Ok(listing) => match last_named(listing.lookup_names, lowercase(name)) {
            None => Ok(None),
            Some(at) => Ok(
                Some(
                    FatNode {
                        identifier: listing.entries[at].identifier,
                        entry: Some(listing.entries[at]),
                    },
                ),
            ),
        },
    }
}

/// The file entry that the parts of a path from `index` on lead to, starting at a file entry.
pub open spec fn resolved_from(
    content: Content,
    geometry: FatGeometry,
    parts: Seq<Seq<char>>,
    index: int,
    node: FatNode,
) -> Result<Option<FatNode>, DriverError>
    decreases parts.len() - index,
{
    if index < 0 || index >= parts.len() {
        Ok(Some(node))
    } else {
        match child_of(content, geometry, node, parts[index]) {
            Err(error) => Err(error),
            Ok(None) => Ok(None),
            Ok(Some(child)) => resolved_from(content, geometry, parts, index + 1, child),
        }
    }
}

/// The file entry at a path, which has to be absolute.
pub open spec fn resolved(content: Content, geometry: FatGeometry, path: Seq<char>) -> Result<
    Option<FatNode>,
    DriverError,
> {
    if !is_absolute(path) {
        Ok(None)
    } else {
        match root_node(geometry) {
            Err(error) => Err(error),
            Ok(root) => resolved_from(content, geometry, path_parts(path), 0, root),
        }
    }
}

/// The extents of the clusters of a chain from `index` on, after those that end at an offset.
pub open spec fn chain_extents_from(
    geometry: FatGeometry,
    data_size: u32,
    chain: Seq<u64>,
    index: int,
    end: u64,
    extents: Seq<FileExtent>,
) -> Result<Seq<FileExtent>, DriverError>
    decreases chain.len() - index,
{
    let remaining = data_size - end;
    let size = if geometry.cluster_block_size < remaining {
        geometry.cluster_block_size as int
    } else {
        remaining
    };
    if remaining <= 0 {
        Ok(extents)
    } else if index >= chain.len() {
        Err(DriverError::OutOfBounds)
    } else {
        chain_extents_from(
            geometry,
            data_size,
            chain,
            index + 1,
            (end + size) as u64,
            extents.push(
                FileExtent {
                    logical_offset: end,
                    size: size as u64,
                    offset: Some(geometry.cluster_offset(chain[index] as u32) as u64),
                },
            ),
        )
    }
}

/// Where the data of a file is. A directory has none.
pub open spec fn data_of(content: Content, geometry: FatGeometry, node: FatNode) -> Result<
    Option<FileData>,
    DriverError,
> {
    if node.is_directory() {
        Ok(None)
    } else if node.entry->0.data_size == 0 {
        Ok(Some(FileData::Inline(Seq::empty())))
    } else {
        match chain_from(content, geometry, node.entry->0.data_start_cluster, Seq::empty()) {
            Err(error) => Err(error),
            Ok(chain) => match chain_extents_from(
                geometry,
                node.entry->0.data_size,
                chain,
                0,
                0,
                Seq::empty(),
            ) {
                Err(error) => Err(error),
                Ok(extents) => Ok(Some(FileData::Stored(extents))),
            },
        }
    }
}

/// What is known of a file system once it is open: where its parts are, the volume label of its
/// boot record and that of its root directory.
pub open spec fn opened_volume(content: Content) -> Result<
    (FatGeometry, Option<Seq<char>>, Option<Seq<char>>),
    DriverError,
> {
    match boot_of(content) {
        Err(error) => Err(error),
        Ok((geometry, label)) => match root_listing(content, geometry) {
            Err(error) => Err(error),
            Ok(listing) => Ok((geometry, label, listing.volume_label)),
        },
    }
}

/// Immutable FAT file entry.
pub struct FatFileEntry {
    source: DataSourceReference,
    geometry: FatGeometry,
    identifier: u32,
    directory_entry: Option<FatDirectoryEntry>,
}

impl FatFileEntry {
    /// The source of the file system.
    pub closed spec fn spec_source(&self) -> DataSourceReference {
        self.source
    }

    /// Where the parts of the file system are.
    pub closed spec fn spec_geometry(&self) -> FatGeometry {
        self.geometry
    }

    /// The file entry.
    pub closed spec fn view(&self) -> FatNode {
        FatNode {
            identifier: self.identifier,
            entry: match self.directory_entry {
                Some(entry) => Some(entry@),
                None => None,
            },
        }
    }

    #[verifier::type_invariant]
    spec fn well_formed(self) -> bool {
        self.geometry.is_usable()
    }

    /// Retrieves the identifier.
    pub fn identifier(&self) -> (identifier: u32)
        ensures
            identifier == self@.identifier,
    {
        self.identifier
    }

    /// Retrieves the name.
    pub fn name(&self) -> (name: Option<&str>)
        ensures
            match name {
                Some(name) => self@.entry is Some && name@ == self@.entry->0.name(),
                None => self@.entry is None,
            },
    {
        match &self.directory_entry {
            Some(entry) => Some(entry.name()),
            None => None,
        }
    }

    /// Retrieves the size.
    pub fn size(&self) -> (size: u64)
        ensures
            size == (match self@.entry {
                Some(entry) => entry.data_size,
                None => 0,
            }),
    {
        match &self.directory_entry {
            Some(entry) => entry.data_size as u64,
            None => 0,
        }
    }

    /// Determines if the file entry is a directory.
    pub fn is_directory(&self) -> (is_directory: bool)
        ensures
            is_directory == self@.is_directory(),
    {
        match &self.directory_entry {
            Some(entry) => {
                let flags: u8 = entry.file_attribute_flags;
                (flags / 8) % 2 == 0 && (flags / 16) % 2 == 1 && (flags / 64) % 2 == 0
            },
            None => true,
        }
    }

    /// Determines if the file entry is the root directory.
    pub fn is_root_directory(&self) -> (is_root_directory: bool)
        ensures
            is_root_directory == (self@.entry is None),
    {
        self.directory_entry.is_none()
    }

    fn read_directory(&self) -> (result: Result<FatDirectory, DriverError>)
        ensures
            match result {
                Ok(directory) => {
                    &&& listing_of(self.spec_source().content(), self.spec_geometry(), self@)
                        == Ok::<FatListing, DriverError>(directory@)
                    &&& directory.is_sound()
                },
                Err(error) => self.spec_source().reliable() ==> listing_of(
                    self.spec_source().content(),
                    self.spec_geometry(),
                    self@,
                ) == Err::<FatListing, DriverError>(error),
            },
    {
        proof {
            use_type_invariant(self);
        }
        if !self.is_directory() {
            return Ok(FatDirectory::new());
        }
        match &self.directory_entry {
            None => FatDirectory::read_root(&self.source, &self.geometry),
            Some(entry) => FatDirectory::read_clusters(
                &self.source,
                &self.geometry,
                entry.data_start_cluster,
            ),
        }
    }

    /// Retrieves the number of sub file entries.
    pub fn number_of_sub_file_entries(&self) -> (result: Result<usize, DriverError>)
        ensures
            match result {
                Ok(count) => listing_of(
                    self.spec_source().content(),
                    self.spec_geometry(),
                    self@,
                ) matches Ok(listing) && count == distinct_count(listing.lookup_names),
                Err(error) => self.spec_source().reliable() ==> listing_of(
                    self.spec_source().content(),
                    self.spec_geometry(),
                    self@,
                ) == Err::<FatListing, DriverError>(error),
            },
    {
        let directory: FatDirectory = self.read_directory()?;
        Ok(count_distinct(&directory.lookup_names))
    }

    /// Retrieves a specific sub file entry by name.
    pub fn sub_file_entry_by_name(&self, name: &str) -> (result: Result<Option<Self>, DriverError>)
        ensures
            match result {
                Ok(Some(entry)) => {
                    &&& child_of(
                        self.spec_source().content(),
                        self.spec_geometry(),
                        self@,
                        name@,
                    ) == Ok::<Option<FatNode>, DriverError>(Some(entry@))
                    &&& entry.spec_source() == self.spec_source()
                    &&& entry.spec_geometry() == self.spec_geometry()
                },
                Ok(None) => child_of(
                    self.spec_source().content(),
                    self.spec_geometry(),
                    self@,
                    name@,
                ) == Ok::<Option<FatNode>, DriverError>(None),
                Err(error) => self.spec_source().reliable() ==> child_of(
                    self.spec_source().content(),
                    self.spec_geometry(),
                    self@,
                    name@,
                ) == Err::<Option<FatNode>, DriverError>(error),
            },
    {
        proof {
            use_type_invariant(self);
        }
        let mut directory: FatDirectory = self.read_directory()?;
        let chars: Vec<char> = text_chars(name);
        let lookup_name: Vec<char> = lowercase_text(chars.as_slice());
        let at: usize = match find_last_named(&directory.lookup_names, lookup_name.as_slice()) {
            None => return Ok(None),
            Some(at) => at,
        };
        let ghost listing = directory@;
        let entry: FatDirectoryEntry = directory.entries.remove(at);
        assert(entry@ == listing.entries[at as int]);
        Ok(
            Some(
                FatFileEntry {
                    source: self.source.clone(),
                    geometry: self.geometry,
                    identifier: entry.identifier,
                    directory_entry: Some(entry),
                },
            ),
        )
    }

    fn read_extents(&self, data_size: u32, chain: &Vec<u64>) -> (result: Result<
        Vec<FileExtent>,
        DriverError,
    >)
        requires
            forall|i: int| 0 <= i < chain@.len() ==> 2 <= (#[trigger] chain@[i]) <= u32::MAX,
        ensures
            match result {
                Ok(extents) => chain_extents_from(
                    self.spec_geometry(),
                    data_size,
                    chain@,
                    0,
                    0,
                    Seq::empty(),
                ) == Ok::<Seq<FileExtent>, DriverError>(extents@),
                Err(error) => chain_extents_from(
                    self.spec_geometry(),
                    data_size,
                    chain@,
                    0,
                    0,
                    Seq::empty(),
                ) == Err::<Seq<FileExtent>, DriverError>(error),
            },
    {
        proof {
            use_type_invariant(self);
        }
        let geometry: FatGeometry = self.geometry;
        let ghost whole = chain_extents_from(geometry, data_size, chain@, 0, 0, Seq::empty());
        let cluster_size: u64 = geometry.cluster_block_size as u64;
        let mut extents: Vec<FileExtent> = Vec::new();
        let mut end: u64 = 0;
        let mut index: usize = 0;
        assert(extents@ =~= Seq::<FileExtent>::empty());
        while end < data_size as u64
            invariant
                index <= chain@.len(),
                end <= data_size,
                geometry.is_usable(),
                cluster_size == geometry.cluster_block_size,
                forall|i: int| 0 <= i < chain@.len() ==> 2 <= (#[trigger] chain@[i]) <= u32::MAX,
                geometry == self.spec_geometry(),
                whole == chain_extents_from(geometry, data_size, chain@, 0, 0, Seq::empty()),
                whole == chain_extents_from(
                    geometry,
                    data_size,
                    chain@,
                    index as int,
                    end,
                    extents@,
                ),
            decreases chain@.len() - index,
        {
            if index >= chain.len() {
                return Err(DriverError::OutOfBounds);
            }
            let remaining: u64 = data_size as u64 - end;
            let size: u64 = if cluster_size < remaining {
                cluster_size
            } else {
                remaining
            };
            assert(2 <= chain@[index as int] <= u32::MAX);
            let offset: u64 = get_cluster_offset(&geometry, chain[index] as u32);
            extents.push(FileExtent { logical_offset: end, size, offset: Some(offset) });
            end = end + size;
            index += 1;
        }
        Ok(extents)
    }

    /// Opens the default data source of the file entry.
    pub fn open_source(&self) -> (result: Result<Option<DataSourceReference>, DriverError>)
        ensures
            match result {
                Ok(Some(logical)) => {
                    &&& data_of(self.spec_source().content(), self.spec_geometry(), self@) is Ok
                    &&& data_of(
                        self.spec_source().content(),
                        self.spec_geometry(),
                        self@,
                    )->Ok_0 is Some
                    &&& is_opened(
                        logical,
                        self.spec_source(),
                        data_of(
                            self.spec_source().content(),
                            self.spec_geometry(),
                            self@,
                        )->Ok_0->0,
                    )
                },
                Ok(None) => data_of(self.spec_source().content(), self.spec_geometry(), self@)
                    == Ok::<Option<FileData>, DriverError>(None),
                Err(error) => self.spec_source().reliable() ==> match data_of(
                    self.spec_source().content(),
                    self.spec_geometry(),
                    self@,
                ) {
                    Err(expected) => error == expected,
                    Ok(None) => false,
                    Ok(Some(data)) => open_error(self.spec_source(), Ok(data)) == Some(error),
                },
            },
    {
        proof {
            use_type_invariant(self);
        }
        if self.is_directory() {
            return Ok(None);
        }
        let entry: &FatDirectoryEntry = match &self.directory_entry {
            Some(entry) => entry,
            None => return Ok(None),
        };
        if entry.data_size == 0 {
            let data: Vec<u8> = Vec::new();
            assert(data@ =~= Seq::<u8>::empty());
            return Ok(Some(MemoryDataSource::new(data).into_reference()));
        }
        let chain: Vec<u64> = read_cluster_chain(
            &self.source,
            &self.geometry,
            entry.data_start_cluster,
        )?;
        let extents: Vec<FileExtent> = self.read_extents(entry.data_size, &chain)?;
        Ok(Some(open_file_extents(&self.source, &extents)?))
    }
}

/// Immutable FAT file system.
pub struct FatFileSystem {
    source: DataSourceReference,
    geometry: FatGeometry,
    volume_label: Option<String>,
    root_directory_volume_label: Option<String>,
}

impl FatFileSystem {
    /// The source of the file system.
    pub closed spec fn spec_source(&self) -> DataSourceReference {
        self.source
    }

    /// Where the parts of the file system are.
    pub closed spec fn spec_geometry(&self) -> FatGeometry {
        self.geometry
    }

    /// The volume label of the boot record.
    pub closed spec fn spec_boot_label(&self) -> Option<Seq<char>> {
        match self.volume_label {
            Some(label) => Some(label@),
            None => None,
        }
    }

    /// The volume label of the root directory.
    pub closed spec fn spec_root_label(&self) -> Option<Seq<char>> {
        match self.root_directory_volume_label {
            Some(label) => Some(label@),
            None => None,
        }
    }

    #[verifier::type_invariant]
    spec fn well_formed(self) -> bool {
        self.geometry.is_usable()
    }

    /// Opens and parses a FAT file system.
    pub fn open(source: DataSourceReference) -> (result: Result<Self, DriverError>)
        ensures
            match result {
                Ok(file_system) => {
                    &&& file_system.spec_source() == source
                    &&& opened_volume(source.content()) == Ok::<
                        (FatGeometry, Option<Seq<char>>, Option<Seq<char>>),
                        DriverError,
                    >(
                        (
                            file_system.spec_geometry(),
                            file_system.spec_boot_label(),
                            file_system.spec_root_label(),
                        ),
                    )
                },
                Err(error) => source.reliable() ==> opened_volume(source.content()) == Err::<
                    (FatGeometry, Option<Seq<char>>, Option<Seq<char>>),
                    DriverError,
                >(error),
            },
    {
        let boot: FatBootRecord = FatBootRecord::read_at(&source)?;
        let geometry: FatGeometry = boot.geometry();
        let root: FatDirectory = FatDirectory::read_root(&source, &geometry)?;
        Ok(
            FatFileSystem {
                source,
                geometry,
                volume_label: boot.volume_label,
                root_directory_volume_label: root.volume_label,
            },
        )
    }

    /// Retrieves the format.
    pub fn format(&self) -> (format: FatFormat)
        ensures
            format == self.spec_geometry().format,
    {
        self.geometry.format
    }

    /// Retrieves the bytes-per-sector value.
    pub fn bytes_per_sector(&self) -> (bytes_per_sector: u16)
        ensures
            bytes_per_sector == self.spec_geometry().bytes_per_sector,
    {
        self.geometry.bytes_per_sector
    }

    /// Retrieves the volume serial number.
    pub fn volume_serial_number(&self) -> (volume_serial_number: u32)
        ensures
            volume_serial_number == self.spec_geometry().volume_serial_number,
    {
        self.geometry.volume_serial_number
    }

    /// Retrieves the volume label.
    pub fn volume_label(&self) -> (volume_label: Option<&str>)
        ensures
            match volume_label {
                Some(label) => Some(label@) == (if self.spec_root_label() is Some {
                    self.spec_root_label()
                } else {
                    self.spec_boot_label()
                }),
                None => self.spec_root_label() is None && self.spec_boot_label() is None,
            },
    {
        match &self.root_directory_volume_label {
            Some(label) => Some(label.as_str()),
            None => match &self.volume_label {
                Some(label) => Some(label.as_str()),
                None => None,
            },
        }
    }

    /// Retrieves the root directory.
    pub fn root_directory(&self) -> (result: Result<FatFileEntry, DriverError>)
        ensures
            match result {
                Ok(entry) => {
                    &&& root_node(self.spec_geometry()) == Ok::<FatNode, DriverError>(entry@)
                    &&& entry.spec_source() == self.spec_source()
                    &&& entry.spec_geometry() == self.spec_geometry()
                },
                Err(error) => root_node(self.spec_geometry()) == Err::<FatNode, DriverError>(error),
            },
    {
        proof {
            use_type_invariant(self);
        }
        let offset: u64 = if self.geometry.root_directory_size > 0 {
            self.geometry.root_directory_offset
        } else {
            if self.geometry.root_directory_cluster_block_number < 2 {
                return Err(DriverError::Invalid);
            }
            get_cluster_offset(&self.geometry, self.geometry.root_directory_cluster_block_number)
        };
        Ok(
            FatFileEntry {
                source: self.source.clone(),
                geometry: self.geometry,
                identifier: (offset % 0x1_0000_0000) as u32,
                directory_entry: None,
            },
        )
    }

    /// Retrieves a file entry by absolute path.
    pub fn file_entry_by_path(&self, path: &str) -> (result: Result<
        Option<FatFileEntry>,
        DriverError,
    >)
        ensures
            match result {
                Ok(Some(entry)) => {
                    &&& resolved(self.spec_source().content(), self.spec_geometry(), path@) == Ok::<
                        Option<FatNode>,
                        DriverError,
                    >(Some(entry@))
                    &&& entry.spec_source() == self.spec_source()
                    &&& entry.spec_geometry() == self.spec_geometry()
                },
                Ok(None) => resolved(self.spec_source().content(), self.spec_geometry(), path@)
                    == Ok::<Option<FatNode>, DriverError>(None),
                Err(error) => self.spec_source().reliable() ==> resolved(
                    self.spec_source().content(),
                    self.spec_geometry(),
                    path@,
                ) == Err::<Option<FatNode>, DriverError>(error),
            },
    {
        let ghost content = self.spec_source().content();
        let ghost geometry = self.spec_geometry();
        let ghost whole = resolved(content, geometry, path@);
        let parts: Vec<Vec<char>> = match split_absolute_path(path) {
            Some(parts) => parts,
            None => return Ok(None),
        };
        let mut entry: FatFileEntry = self.root_directory()?;
        let mut index: usize = 0;
        while index < parts.len()
            invariant
                index <= parts@.len(),
                content == self.spec_source().content(),
                geometry == self.spec_geometry(),
                entry.spec_source() == self.spec_source(),
                entry.spec_geometry() == geometry,
                whole == resolved(content, geometry, path@),
                whole == resolved_from(
                    content,
                    geometry,
                    texts_view(parts@),
                    index as int,
                    entry@,
                ),
            decreases parts@.len() - index,
        {
            let name: String = chars_text(parts[index].as_slice());
            assert(texts_view(parts@)[index as int] == name@);
            entry = match entry.sub_file_entry_by_name(name.as_str())? {
                Some(child) => child,
                None => return Ok(None),
            };
            index += 1;
        }
        Ok(Some(entry))
    }
}

/// The root path leads to the root directory.
pub proof fn lemma_root_path(content: Content, geometry: FatGeometry)
    ensures
        resolved(content, geometry, seq!['/']) == (match root_node(geometry) {
            Err(error) => Err(error),
            Ok(root) => Ok::<Option<FatNode>, DriverError>(Some(root)),
        }),
{
    lemma_root_parts();
}

/// The path of an entry of a directory, which is that of the directory, a separator and the name of
/// the entry, leads to the entry.
pub proof fn lemma_child_path(
    content: Content,
    geometry: FatGeometry,
    path: Seq<char>,
    name: Seq<char>,
)
    requires
        is_absolute(path),
        name.len() > 0,
        !name.contains('/'),
    ensures
        resolved(content, geometry, path + seq!['/'] + name) == (match resolved(
            content,
            geometry,
            path,
        ) {
            Ok(Some(node)) => child_of(content, geometry, node, name),
            other => other,
        }),
{
    lemma_child_parts(path, name);
    if let Ok(root) = root_node(geometry) {
        lemma_child_from(content, geometry, path_parts(path), name, 0, root);
    }
}

proof fn lemma_child_from(
    content: Content,
    geometry: FatGeometry,
    parts: Seq<Seq<char>>,
    name: Seq<char>,
    index: int,
    node: FatNode,
)
    requires
        0 <= index <= parts.len(),
    ensures
        resolved_from(content, geometry, parts.push(name), index, node) == (match resolved_from(
            content,
            geometry,
            parts,
            index,
            node,
        ) {
            Ok(Some(found)) => child_of(content, geometry, found, name),
            other => other,
        }),
    decreases parts.len() - index,
{
    let longer = parts.push(name);
    if index < parts.len() {
        assert(longer[index] == parts[index]);
        if let Ok(Some(child)) = child_of(content, geometry, node, parts[index]) {
            lemma_child_from(content, geometry, parts, name, index + 1, child);
        }
    } else {
        assert(longer[index] == name);
        if let Ok(Some(child)) = child_of(content, geometry, node, name) {
            assert(resolved_from(content, geometry, longer, index + 1, child) == Ok::<
                Option<FatNode>,
                DriverError,
            >(Some(child)));
        }
    }
}

/// Names that differ in the case of ASCII letters alone lead to the same entry of a directory.
pub proof fn lemma_case_insensitive(
    content: Content,
    geometry: FatGeometry,
    node: FatNode,
    name: Seq<char>,
    other: Seq<char>,
)
    requires
        lowercase(name) == lowercase(other),
    ensures
        child_of(content, geometry, node, name) == child_of(content, geometry, node, other),
{
}

/// Every byte of a file lies in the cluster of its chain that covers it: the clusters follow the
/// start of the data area one behind the other, from cluster two on.
pub proof fn lemma_file_byte(
    source: DataSourceReference,
    geometry: FatGeometry,
    node: FatNode,
    clusters: Seq<u64>,
    logical: DataSourceReference,
    index: int,
    relative_offset: int,
)
    requires
        geometry.is_usable(),
        node.entry is Some,
        clusters.len() > 0,
        clusters.len() <= u64::MAX,
        are_distinct(clusters),
        are_linked(source.content(), geometry, clusters),
        node.entry->0.data_start_cluster == clusters[0],
        !node.is_directory(),
        data_of(source.content(), geometry, node) is Ok,
        is_opened(logical, source, data_of(source.content(), geometry, node)->Ok_0->0),
        0 <= index < clusters.len(),
        0 <= relative_offset < geometry.cluster_block_size,
        index * geometry.cluster_block_size + relative_offset < node.entry->0.data_size,
    ensures
        is_byte_at(
            logical.content(),
            index * geometry.cluster_block_size + relative_offset,
            source.content(),
            Some(
                geometry.first_cluster_offset + (clusters[index] - 2) * geometry.cluster_block_size
                    + relative_offset,
            ),
        ),
{
    let size = node.entry->0.data_size;
    lemma_chain_stored(source.content(), geometry, clusters);
    assert(0 <= index * geometry.cluster_block_size) by (nonlinear_arith)
        requires
            0 <= index,
            0 <= geometry.cluster_block_size,
    ;
    let extents = chain_extents_from(geometry, size, clusters, 0, 0, Seq::empty())->Ok_0;
    assert(0 * geometry.cluster_block_size == 0) by (nonlinear_arith);
    lemma_cluster_extent(
        geometry,
        size,
        clusters,
        0,
        0,
        Seq::empty(),
        index,
        index * geometry.cluster_block_size,
    );
    let c = geometry.cluster_block_size as int;
    let number = clusters[index];
    assert(is_cluster(geometry.format, number as u32));
    assert(0 <= (number - 2) * c <= 0x1_0000_0000 * 524288) by (nonlinear_arith)
        requires
            2 <= number < 0x1_0000_0000,
            0 <= c <= 524288,
    ;
    let offset = index * c + relative_offset;
    let place = Some(geometry.first_cluster_offset + (number - 2) * c + relative_offset);
    assert(extent_places(extents[index], offset, place));
    lemma_placed_byte(source, extents, index, offset, place);
}

proof fn lemma_cluster_extent(
    geometry: FatGeometry,
    data_size: u32,
    chain: Seq<u64>,
    from: int,
    end: u64,
    extents: Seq<FileExtent>,
    index: int,
    start: int,
)
    requires
        0 < geometry.cluster_block_size,
        chain_extents_from(geometry, data_size, chain, from, end, extents) is Ok,
        0 <= from <= index < chain.len(),
        extents.len() == from,
        end == from * geometry.cluster_block_size,
        start == index * geometry.cluster_block_size,
        start < data_size,
    ensures
        ({
            let all = chain_extents_from(geometry, data_size, chain, from, end, extents)->Ok_0;
            &&& index < all.len()
            &&& all[index].logical_offset == start
            &&& all[index].size == (if geometry.cluster_block_size < data_size - start {
                geometry.cluster_block_size as int
            } else {
                data_size - start
            })
            &&& all[index].offset == Some(geometry.cluster_offset(chain[index] as u32) as u64)
        }),
    decreases chain.len() - from,
{
    let c = geometry.cluster_block_size as int;
    assert(end <= start && (from < index ==> end + c <= start)) by (nonlinear_arith)
        requires
            end == from * c,
            start == index * c,
            from <= index,
            0 < c,
    ;
    let remaining = data_size - end;
    let size = if c < remaining {
        c
    } else {
        remaining
    };
    let extent = FileExtent {
        logical_offset: end,
        size: size as u64,
        offset: Some(geometry.cluster_offset(chain[from] as u32) as u64),
    };
    if from < index {
        assert((from + 1) * c == from * c + c) by (nonlinear_arith);
        lemma_cluster_extent(
            geometry,
            data_size,
            chain,
            from + 1,
            (end + size) as u64,
            extents.push(extent),
            index,
            start,
        );
    } else {
        assert(from * c == index * c);
        lemma_chain_extents_kept(
            geometry,
            data_size,
            chain,
            from + 1,
            (end + size) as u64,
            extents.push(extent),
            from,
        );
    }
}

proof fn lemma_chain_extents_kept(
    geometry: FatGeometry,
    data_size: u32,
    chain: Seq<u64>,
    from: int,
    end: u64,
    extents: Seq<FileExtent>,
    index: int,
)
    requires
        0 <= index < extents.len(),
        chain_extents_from(geometry, data_size, chain, from, end, extents) is Ok,
    ensures
        chain_extents_from(geometry, data_size, chain, from, end, extents)->Ok_0.len()
            >= extents.len(),
        chain_extents_from(geometry, data_size, chain, from, end, extents)->Ok_0[index]
            == extents[index],
    decreases chain.len() - from,
{
    let remaining = data_size - end;
    let size = if geometry.cluster_block_size < remaining {
        geometry.cluster_block_size as int
    } else {
        remaining
    };
    if remaining > 0 {
        lemma_chain_extents_kept(
            geometry,
            data_size,
            chain,
            from + 1,
            (end + size) as u64,
            extents.push(
                FileExtent {
                    logical_offset: end,
                    size: size as u64,
                    offset: Some(geometry.cluster_offset(chain[from] as u32) as u64),
                },
            ),
            index,
        );
    }
}

/// An open file is as large as its directory entry says.
pub proof fn lemma_file_size(
    source: DataSourceReference,
    geometry: FatGeometry,
    node: FatNode,
    logical: DataSourceReference,
)
    requires
        data_of(source.content(), geometry, node) is Ok,
        data_of(source.content(), geometry, node)->Ok_0 is Some,
        is_opened(logical, source, data_of(source.content(), geometry, node)->Ok_0->0),
    ensures
        logical.content().size == node.entry->0.data_size,
{
    let content = source.content();
    let entry = node.entry->0;
    if entry.data_size > 0 {
        let chain = chain_from(content, geometry, entry.data_start_cluster, Seq::empty())->Ok_0;
        lemma_chain_size(source, geometry, entry.data_size, chain, 0, 0, Seq::empty());
    }
}

proof fn lemma_chain_size(
    source: DataSourceReference,
    geometry: FatGeometry,
    data_size: u32,
    chain: Seq<u64>,
    index: int,
    end: u64,
    extents: Seq<FileExtent>,
)
    requires
        end <= data_size,
        extents.len() == 0 ==> end == 0,
        extents.len() > 0 ==> extents.last().logical_offset + extents.last().size == end,
        chain_extents_from(geometry, data_size, chain, index, end, extents) is Ok,
        file_size(
            source,
            chain_extents_from(geometry, data_size, chain, index, end, extents)->Ok_0,
        ) is Ok,
    ensures
        file_size(
            source,
            chain_extents_from(geometry, data_size, chain, index, end, extents)->Ok_0,
        ) == Ok::<u64, DriverError>(data_size as u64),
    decreases chain.len() - index,
{
    let remaining = data_size - end;
    let size = if geometry.cluster_block_size < remaining {
        geometry.cluster_block_size as int
    } else {
        remaining
    };
    if remaining > 0 {
        lemma_chain_size(
            source,
            geometry,
            data_size,
            chain,
            index + 1,
            (end + size) as u64,
            extents.push(
                FileExtent {
                    logical_offset: end,
                    size: size as u64,
                    offset: Some(geometry.cluster_offset(chain[index] as u32) as u64),
                },
            ),
        );
    } else {
        assert(extent_entries(source, extents).len() == extents.len());
    }
}

} // verus!
