//! XFS file entries.

use vstd::prelude::*;

use super::directory::{
    add_ranges, inline_entries, lemma_inline_entries_proper, lemma_ranges_proper, no_entries,
    XfsDirectory, XfsEntries,
};
use super::inode::{
    block_ranges, data_extents, inode_of, lemma_extents_place, lemma_extents_size, range_covers,
    XfsBlockRange, XfsInode, XfsInodeInfo,
};
use super::inode_table::absolute_block;
use super::superblock::{read_superblock, superblock_of, XfsGeometry};
use crate::error::DriverError;
use crate::filesystem::extents::{
    all_data, is_byte_at, is_data_start, is_opened, lemma_placed_byte, open_error,
    open_file_extents, read_file_extents, FileData, FileExtent,
};
use crate::filesystem::names::{
    count_distinct, distinct_count, find_last_named, is_proper_name, last_named, lemma_last_named,
    lemma_last_named_at,
};
use crate::filesystem::path::{
    is_absolute, lemma_child_parts, lemma_root_parts, path_parts, rewrite_path_parts,
    rewritten_parts, split_absolute_path,
};
use crate::scan::texts_view;
use crate::source::data_source::{Content, DataSource, DataSourceReference};
use crate::source::memory::MemoryDataSource;
use crate::text::{
    chars_text, lemma_stored_utf8_text, stored_utf8_text, text_chars, utf8_text_lossy,
};

verus! {

/// The number of symbolic links that are followed for a path.
pub const XFS_SYMBOLIC_LINK_LIMIT: usize = 64;

/// A file entry: its inode with the inode number, and its name if it was found by name.
pub struct XfsNode {
    pub inode_number: u64,
    pub inode: XfsInodeInfo,
    pub name: Option<Seq<char>>,
}

/// The entries of a directory. Another file has none.
pub open spec fn entries_of(content: Content, geometry: XfsGeometry, inode: XfsInodeInfo) -> Result<
    XfsEntries,
    DriverError,
> {
    if !inode.is_directory() {
        Ok(no_entries())
    } else {
        match inode.inline_data() {
            Some(data) => inline_entries(data, geometry.has_file_types),
            None => match block_ranges(inode) {
                Err(error) => Err(error),
                Ok(ranges) => add_ranges(content, geometry, ranges, 0, no_entries()),
            },
        }
    }
}

/// Where the data of a file is.
pub open spec fn data_of(geometry: XfsGeometry, inode: XfsInodeInfo) -> Result<
    FileData,
    DriverError,
> {
    match inode.inline_data() {
        Some(data) => Ok(FileData::Inline(data)),
        None => match data_extents(geometry, inode) {
            Err(error) => Err(error),
            Ok(extents) => Ok(FileData::Stored(extents)),
        },
    }
}

/// The target of a symbolic link.
pub open spec fn link_target(
    source: DataSourceReference,
    geometry: XfsGeometry,
    inode: XfsInodeInfo,
) -> Result<Option<Seq<char>>, DriverError> {
    if !inode.is_symbolic_link() {
        Ok(None)
    } else {
        match all_data(source, data_of(geometry, inode)) {
            Err(error) => Err(error),
            Ok(data) => Ok(Some(stored_utf8_text(data))),
        }
    }
}

/// The file entry with an inode number.
pub open spec fn node_of(content: Content, geometry: XfsGeometry, inode_number: u64) -> Result<
    XfsNode,
    DriverError,
> {
    match inode_of(content, geometry, inode_number) {
        Err(error) => Err(error),
        Ok(inode) => Ok(XfsNode { inode_number, inode, name: None }),
    }
}

/// The entry of a directory with a name. Of several entries with one name the last one counts.
pub open spec fn child_of(
    content: Content,
    geometry: XfsGeometry,
    inode: XfsInodeInfo,
    name: Seq<char>,
) -> Result<Option<XfsNode>, DriverError> {
    match entries_of(content, geometry, inode) {
        Err(error) => Err(error),
        Ok(entries) => match last_named(entries.names, name) {
            None => Ok(None),
            Some(at) => match inode_of(content, geometry, entries.inode_numbers[at]) {
                Err(error) => Err(error),
                Ok(child) => Ok(
                    Some(
                        XfsNode {
                            inode_number: entries.inode_numbers[at],
                            inode: child,
                            name: Some(name),
                        },
                    ),
                ),
            },
        },
    }
}

/// The file entry that the parts of a path from `index` on lead to, starting at a file entry.
/// Symbolic links are followed from the root directory on, except for the last part.
pub open spec fn resolved_from(
    source: DataSourceReference,
    geometry: XfsGeometry,
    parts: Seq<Seq<char>>,
    index: int,
    node: XfsNode,
    depth: int,
) -> Result<Option<XfsNode>, DriverError>
    decreases XFS_SYMBOLIC_LINK_LIMIT - depth, parts.len() - index,
{
    if index < 0 || index >= parts.len() {
        Ok(Some(node))
    } else {
        match child_of(source.content(), geometry, node.inode, parts[index]) {
            Err(error) => Err(error),
            Ok(None) => Ok(None),
            Ok(Some(child)) => if child.inode.is_symbolic_link() && index + 1 < parts.len() {
                match link_target(source, geometry, child.inode) {
                    Err(error) => Err(error),
                    Ok(target) => if depth >= XFS_SYMBOLIC_LINK_LIMIT {
                        Err(DriverError::LimitExceeded)
                    } else {
                        match node_of(source.content(), geometry, geometry.root_inode_number) {
                            Err(error) => Err(error),
                            Ok(root) => resolved_from(
                                source,
                                geometry,
                                rewritten_parts(
                                    parts.take(index),
                                    target->0,
                                    parts.skip(index + 1),
                                ),
                                0,
                                root,
                                depth + 1,
                            ),
                        }
                    },
                }
            } else {
                resolved_from(source, geometry, parts, index + 1, child, depth)
            },
        }
    }
}

/// Whether the parts of a path from `index` on can be taken to lead from a file entry to another
/// one, or to none, by a source that reads less of the target of a symbolic link than there is.
pub open spec fn may_lead(
    source: DataSourceReference,
    geometry: XfsGeometry,
    parts: Seq<Seq<char>>,
    index: int,
    node: XfsNode,
    depth: int,
    found: Option<XfsNode>,
) -> bool
    decreases XFS_SYMBOLIC_LINK_LIMIT - depth, parts.len() - index,
{
    if index < 0 || index >= parts.len() {
        found == Some(node)
    } else {
        match child_of(source.content(), geometry, node.inode, parts[index]) {
            Err(error) => false,
            Ok(None) => found is None,
            Ok(Some(child)) => if child.inode.is_symbolic_link() && index + 1 < parts.len() {
                depth < XFS_SYMBOLIC_LINK_LIMIT && match node_of(
                    source.content(),
                    geometry,
                    geometry.root_inode_number,
                ) {
                    Err(error) => false,
                    Ok(root) => exists|data: Seq<u8>|
                        #[trigger] is_data_start(source, data_of(geometry, child.inode), data)
                            && may_lead(
                            source,
                            geometry,
                            rewritten_parts(
                                parts.take(index),
                                stored_utf8_text(data),
                                parts.skip(index + 1),
                            ),
                            0,
                            root,
                            depth + 1,
                            found,
                        ),
                }
            } else {
                may_lead(source, geometry, parts, index + 1, child, depth, found)
            },
        }
    }
}

/// Whether the parts of a path from `index` on lead through a symbolic link before the last part.
pub open spec fn meets_link(
    content: Content,
    geometry: XfsGeometry,
    parts: Seq<Seq<char>>,
    index: int,
    node: XfsNode,
) -> bool
    decreases parts.len() - index,
{
    if index < 0 || index + 1 >= parts.len() {
        false
    } else {
        match child_of(content, geometry, node.inode, parts[index]) {
            Ok(Some(child)) => child.inode.is_symbolic_link() || meets_link(
                content,
                geometry,
                parts,
                index + 1,
                child,
            ),
            _ => false,
        }
    }
}

/// A path that leads through no symbolic link can be taken to lead only to what it does lead to.
pub proof fn lemma_may_lead(
    source: DataSourceReference,
    geometry: XfsGeometry,
    parts: Seq<Seq<char>>,
    index: int,
    node: XfsNode,
    depth: int,
    found: Option<XfsNode>,
)
    requires
        may_lead(source, geometry, parts, index, node, depth, found),
        !meets_link(source.content(), geometry, parts, index, node),
    ensures
        resolved_from(source, geometry, parts, index, node, depth) == Ok::<
            Option<XfsNode>,
            DriverError,
        >(found),
    decreases parts.len() - index,
{
    if 0 <= index < parts.len() {
        if let Ok(Some(child)) = child_of(source.content(), geometry, node.inode, parts[index]) {
            lemma_may_lead(source, geometry, parts, index + 1, child, depth, found);
        }
    }
}

/// What is known of a file entry, if there is one.
pub open spec fn node_view(entry: Option<XfsFileEntry>) -> Option<XfsNode> {
    match entry {
        Some(entry) => Some(entry@),
        None => None,
    }
}

/// The file entry at a path, which has to be absolute.
pub open spec fn resolved(
    source: DataSourceReference,
    geometry: XfsGeometry,
    path: Seq<char>,
) -> Result<Option<XfsNode>, DriverError> {
    if !is_absolute(path) {
        Ok(None)
    } else {
        match node_of(source.content(), geometry, geometry.root_inode_number) {
            Err(error) => Err(error),
            Ok(root) => resolved_from(source, geometry, path_parts(path), 0, root, 0),
        }
    }
}

/// Immutable XFS file entry.
pub struct XfsFileEntry {
    source: DataSourceReference,
    geometry: XfsGeometry,
    inode_number: u64,
    inode: XfsInode,
    name: Option<String>,
}

impl XfsFileEntry {
    /// The source of the file system.
    pub closed spec fn spec_source(&self) -> DataSourceReference {
        self.source
    }

    /// The geometry of the file system.
    pub closed spec fn spec_geometry(&self) -> XfsGeometry {
        self.geometry
    }

    /// The file entry.
    pub closed spec fn view(&self) -> XfsNode {
        XfsNode {
            inode_number: self.inode_number,
            inode: self.inode@,
            name: match self.name {
                Some(name) => Some(name@),
                None => None,
            },
        }
    }

    /// Whether the entry is one of a file system: its inode is the one with its number.
    pub open spec fn is_in(&self, source: DataSourceReference, geometry: XfsGeometry) -> bool {
        &&& self.spec_source() == source
        &&& self.spec_geometry() == geometry
        &&& inode_of(source.content(), geometry, self@.inode_number) == Ok::<
            XfsInodeInfo,
            DriverError,
        >(self@.inode)
    }

    #[verifier::type_invariant]
    spec fn well_formed(self) -> bool {
        &&& self.geometry.is_usable()
        &&& self.inode.is_sound()
    }

    fn new(
        source: &DataSourceReference,
        geometry: XfsGeometry,
        inode_number: u64,
        name: Option<String>,
    ) -> (result: Result<Self, DriverError>)
        requires
            geometry.is_usable(),
        ensures
            match result {
                Ok(entry) => {
                    &&& entry.is_in(*source, geometry)
                    &&& entry@.inode_number == inode_number
                    &&& entry@.name == (match name {
                        Some(name) => Some(name@),
                        None => None,
                    })
                },
                Err(error) => source.reliable() ==> inode_of(
                    source.content(),
                    geometry,
                    inode_number,
                ) == Err::<XfsInodeInfo, DriverError>(error),
            },
    {
        let inode: XfsInode = XfsInode::read(source, &geometry, inode_number)?;
        Ok(XfsFileEntry { source: source.clone(), geometry, inode_number, inode, name })
    }

    /// Retrieves the inode number.
    pub fn inode_number(&self) -> (inode_number: u64)
        ensures
            inode_number == self@.inode_number,
    {
        self.inode_number
    }

    /// Retrieves the name.
    pub fn name(&self) -> (name: Option<&str>)
        ensures
            match name {
                Some(name) => self@.name == Some(name@),
                None => self@.name is None,
            },
    {
        match &self.name {
            Some(name) => Some(name.as_str()),
            None => None,
        }
    }

    /// Retrieves the size.
    pub fn size(&self) -> (size: u64)
        ensures
            size == (if self@.inode.is_regular_file() || self@.inode.is_symbolic_link() {
                self@.inode.data_size
            } else {
                0
            }),
    {
        let file_type: u16 = self.inode.file_mode / 0x1000;
        if file_type == 8 || file_type == 0xa {
            self.inode.data_size
        } else {
            0
        }
    }

    /// Determines if the file entry is a directory.
    pub fn is_directory(&self) -> (is_directory: bool)
        ensures
            is_directory == self@.inode.is_directory(),
    {
        self.inode.file_mode / 0x1000 == 4
    }

    /// Determines if the file entry is a symbolic link.
    pub fn is_symbolic_link(&self) -> (is_symbolic_link: bool)
        ensures
            is_symbolic_link == self@.inode.is_symbolic_link(),
    {
        self.inode.file_mode / 0x1000 == 0xa
    }

    fn read_inline_data(&self) -> (data: Option<Vec<u8>>)
        ensures
            match data {
                Some(data) => self@.inode.inline_data() == Some(data@),
                None => self@.inode.inline_data() is None,
            },
    {
        proof {
            use_type_invariant(self);
        }
        if self.inode.data_fork_format != 1 {
            return None;
        }
        let length: usize = self.inode.data_fork.len();
        assert(self.inode.data_size <= length);
        let data: &[u8] = vstd::slice::slice_subrange(
            self.inode.data_fork.as_slice(),
            0,
            self.inode.data_size as usize,
        );
        assert(data@ =~= self.inode.data_fork@.take(self.inode.data_size as int));
        Some(vstd::slice::slice_to_vec(data))
    }

    /// Retrieves the symbolic link target if present.
    pub fn symbolic_link_target(&self) -> (result: Result<Option<String>, DriverError>)
        ensures
            !self@.inode.is_symbolic_link() ==> result matches Ok(None),
            result matches Ok(target) ==> (target is Some <==> self@.inode.is_symbolic_link()),
            result matches Ok(Some(target)) ==> exists|data: Seq<u8>|
                #[trigger] is_data_start(
                    self.spec_source(),
                    data_of(self.spec_geometry(), self@.inode),
                    data,
                ) && target@ == stored_utf8_text(data),
            self.spec_source().reliable() ==> match result {
                Ok(Some(target)) => link_target(
                    self.spec_source(),
                    self.spec_geometry(),
                    self@.inode,
                ) == Ok::<Option<Seq<char>>, DriverError>(Some(target@)),
                Ok(None) => link_target(self.spec_source(), self.spec_geometry(), self@.inode)
                    == Ok::<Option<Seq<char>>, DriverError>(None),
                Err(error) => link_target(self.spec_source(), self.spec_geometry(), self@.inode)
                    == Err::<Option<Seq<char>>, DriverError>(error),
            },
    {
        proof {
            use_type_invariant(self);
        }
        if !self.is_symbolic_link() {
            return Ok(None);
        }
        let data: Vec<u8> = match self.read_inline_data() {
            Some(data) => data,
            None => {
                let extents: Vec<FileExtent> = self.inode.read_extents(&self.geometry)?;
                read_file_extents(&self.source, &extents)?
            },
        };
        assert(is_data_start(
            self.spec_source(),
            data_of(self.spec_geometry(), self@.inode),
            data@,
        ));
        Ok(Some(utf8_text_lossy(data.as_slice())))
    }

    fn read_directory(&self) -> (result: Result<XfsDirectory, DriverError>)
        ensures
            match result {
                Ok(directory) => {
                    &&& entries_of(
                        self.spec_source().content(),
                        self.spec_geometry(),
                        self@.inode,
                    ) == Ok::<XfsEntries, DriverError>(directory@)
                    &&& directory.is_sound()
                },
                Err(error) => self.spec_source().reliable() ==> entries_of(
                    self.spec_source().content(),
                    self.spec_geometry(),
                    self@.inode,
                ) == Err::<XfsEntries, DriverError>(error),
            },
    {
        proof {
            use_type_invariant(self);
        }
        if !self.is_directory() {
            return Ok(XfsDirectory::new());
        }
        match self.read_inline_data() {
            Some(data) => XfsDirectory::read_inline(data.as_slice(), self.geometry.has_file_types),
            None => {
                let ranges: Vec<XfsBlockRange> = self.inode.read_block_ranges()?;
                XfsDirectory::read_ranges(&self.source, &self.geometry, &ranges)
            },
        }
    }

    /// Retrieves the number of sub file entries.
    pub fn number_of_sub_file_entries(&self) -> (result: Result<usize, DriverError>)
        ensures
            match result {
                Ok(count) => entries_of(
                    self.spec_source().content(),
                    self.spec_geometry(),
                    self@.inode,
                ) matches Ok(entries) && count == distinct_count(entries.names),
                Err(error) => self.spec_source().reliable() ==> entries_of(
                    self.spec_source().content(),
                    self.spec_geometry(),
                    self@.inode,
                ) == Err::<XfsEntries, DriverError>(error),
            },
    {
        let directory: XfsDirectory = self.read_directory()?;
        Ok(count_distinct(&directory.names))
    }

    /// Retrieves a specific sub file entry by name.
    pub fn sub_file_entry_by_name(&self, name: &str) -> (result: Result<Option<Self>, DriverError>)
        ensures
            match result {
                Ok(Some(entry)) => {
                    &&& child_of(
                        self.spec_source().content(),
                        self.spec_geometry(),
                        self@.inode,
                        name@,
                    ) == Ok::<Option<XfsNode>, DriverError>(Some(entry@))
                    &&& entry.is_in(self.spec_source(), self.spec_geometry())
                },
                Ok(None) => child_of(
                    self.spec_source().content(),
                    self.spec_geometry(),
                    self@.inode,
                    name@,
                ) == Ok::<Option<XfsNode>, DriverError>(None),
                Err(error) => self.spec_source().reliable() ==> child_of(
                    self.spec_source().content(),
                    self.spec_geometry(),
                    self@.inode,
                    name@,
                ) == Err::<Option<XfsNode>, DriverError>(error),
            },
    {
        proof {
            use_type_invariant(self);
        }
        let directory: XfsDirectory = self.read_directory()?;
        let chars: Vec<char> = text_chars(name);
        match find_last_named(&directory.names, chars.as_slice()) {
            None => Ok(None),
            Some(at) => {
                let inode_number: u64 = directory.inode_numbers[at];
                let entry = Self::new(
                    &self.source,
                    self.geometry,
                    inode_number,
                    Some(name.to_owned()),
                )?;
                Ok(Some(entry))
            },
        }
    }

    /// Opens the default data source of the file entry.
    pub fn open_source(&self) -> (result: Result<Option<DataSourceReference>, DriverError>)
        ensures
            match result {
                Ok(Some(logical)) => {
                    &&& self@.inode.is_regular_file()
                    &&& data_of(self.spec_geometry(), self@.inode) is Ok
                    &&& is_opened(
                        logical,
                        self.spec_source(),
                        data_of(self.spec_geometry(), self@.inode)->Ok_0,
                    )
                },
                Ok(None) => !self@.inode.is_regular_file(),
                Err(error) => {
                    &&& self@.inode.is_regular_file()
                    &&& open_error(
                        self.spec_source(),
                        data_of(self.spec_geometry(), self@.inode),
                    ) == Some(error)
                },
            },
    {
        proof {
            use_type_invariant(self);
        }
        if self.inode.file_mode / 0x1000 != 8 {
            return Ok(None);
        }
        match self.read_inline_data() {
            Some(data) => Ok(Some(MemoryDataSource::new(data).into_reference())),
            None => {
                let extents: Vec<FileExtent> = self.inode.read_extents(&self.geometry)?;
                Ok(Some(open_file_extents(&self.source, &extents)?))
            },
        }
    }
}

/// Immutable XFS file system.
pub struct XfsFileSystem {
    source: DataSourceReference,
    geometry: XfsGeometry,
    volume_label: Option<String>,
}

impl XfsFileSystem {
    /// The source of the file system.
    pub closed spec fn spec_source(&self) -> DataSourceReference {
        self.source
    }

    /// The geometry of the file system.
    pub closed spec fn spec_geometry(&self) -> XfsGeometry {
        self.geometry
    }

    /// The volume label of the file system.
    pub closed spec fn spec_volume_label(&self) -> Option<Seq<char>> {
        match self.volume_label {
            Some(label) => Some(label@),
            None => None,
        }
    }

    #[verifier::type_invariant]
    spec fn well_formed(self) -> bool {
        self.geometry.is_usable()
    }

    /// Opens and parses an XFS file system.
    pub fn open(source: DataSourceReference) -> (result: Result<Self, DriverError>)
        ensures
            match result {
                Ok(file_system) => {
                    &&& file_system.spec_source() == source
                    &&& superblock_of(source.content()) == Ok::<
                        (XfsGeometry, Option<Seq<char>>),
                        DriverError,
                    >((file_system.spec_geometry(), file_system.spec_volume_label()))
                },
                Err(error) => source.reliable() ==> superblock_of(source.content()) == Err::<
                    (XfsGeometry, Option<Seq<char>>),
                    DriverError,
                >(error),
            },
    {
        let (geometry, volume_label) = read_superblock(&source)?;
        Ok(XfsFileSystem { source, geometry, volume_label })
    }

    /// Retrieves the format version.
    pub fn format_version(&self) -> (format_version: u8)
        ensures
            format_version == self.spec_geometry().format_version,
    {
        self.geometry.format_version
    }

    /// Retrieves the volume label.
    pub fn volume_label(&self) -> (volume_label: Option<&str>)
        ensures
            match volume_label {
                Some(label) => self.spec_volume_label() == Some(label@),
                None => self.spec_volume_label() is None,
            },
    {
        match &self.volume_label {
            Some(label) => Some(label.as_str()),
            None => None,
        }
    }

    /// Retrieves the root directory.
    pub fn root_directory(&self) -> (result: Result<XfsFileEntry, DriverError>)
        ensures
            match result {
                Ok(entry) => {
                    &&& node_of(
                        self.spec_source().content(),
                        self.spec_geometry(),
                        self.spec_geometry().root_inode_number,
                    ) == Ok::<XfsNode, DriverError>(entry@)
                    &&& entry.is_in(self.spec_source(), self.spec_geometry())
                },
                Err(error) => self.spec_source().reliable() ==> node_of(
                    self.spec_source().content(),
                    self.spec_geometry(),
                    self.spec_geometry().root_inode_number,
                ) == Err::<XfsNode, DriverError>(error),
            },
    {
        self.file_entry_by_identifier(self.geometry.root_inode_number)
    }

    /// Retrieves a file entry by inode number.
    pub fn file_entry_by_identifier(&self, inode_number: u64) -> (result: Result<
        XfsFileEntry,
        DriverError,
    >)
        ensures
            match result {
                Ok(entry) => {
                    &&& node_of(self.spec_source().content(), self.spec_geometry(), inode_number)
                        == Ok::<XfsNode, DriverError>(entry@)
                    &&& entry.is_in(self.spec_source(), self.spec_geometry())
                },
                Err(error) => self.spec_source().reliable() ==> node_of(
                    self.spec_source().content(),
                    self.spec_geometry(),
                    inode_number,
                ) == Err::<XfsNode, DriverError>(error),
            },
    {
        proof {
            use_type_invariant(self);
        }
        XfsFileEntry::new(&self.source, self.geometry, inode_number, None)
    }

    /// Retrieves a file entry by absolute path.
    pub fn file_entry_by_path(&self, path: &str) -> (result: Result<
        Option<XfsFileEntry>,
        DriverError,
    >)
        ensures
            !is_absolute(path@) ==> result matches Ok(None),
            result matches Ok(Some(entry)) ==> entry.is_in(
                self.spec_source(),
                self.spec_geometry(),
            ),
            is_absolute(path@) ==> (result matches Ok(found) ==> {
                let root = node_of(
                    self.spec_source().content(),
                    self.spec_geometry(),
                    self.spec_geometry().root_inode_number,
                );
                &&& root is Ok
                &&& may_lead(
                    self.spec_source(),
                    self.spec_geometry(),
                    path_parts(path@),
                    0,
                    root->Ok_0,
                    0,
                    node_view(found),
                )
            }),
            self.spec_source().reliable() ==> match result {
                Ok(Some(entry)) => resolved(self.spec_source(), self.spec_geometry(), path@)
                    == Ok::<Option<XfsNode>, DriverError>(Some(entry@)),
                Ok(None) => resolved(self.spec_source(), self.spec_geometry(), path@) == Ok::<
                    Option<XfsNode>,
                    DriverError,
                >(None),
                Err(error) => resolved(self.spec_source(), self.spec_geometry(), path@) == Err::<
                    Option<XfsNode>,
                    DriverError,
                >(error),
            },
    {
        let ghost source = self.spec_source();
        let ghost geometry = self.spec_geometry();
        let ghost whole = resolved(source, geometry, path@);
        let mut parts: Vec<Vec<char>> = match split_absolute_path(path) {
            Some(parts) => parts,
            None => return Ok(None),
        };
        let mut entry: XfsFileEntry = self.root_directory()?;
        let ghost root = entry@;
        let ghost given = texts_view(parts@);
        let mut depth: usize = 0;
        let mut index: usize = 0;
        while index < parts.len()
            invariant
                index <= parts@.len(),
                depth <= XFS_SYMBOLIC_LINK_LIMIT,
                source == self.spec_source(),
                geometry == self.spec_geometry(),
                is_absolute(path@),
                entry.is_in(source, geometry),
                given == path_parts(path@),
                node_of(source.content(), geometry, geometry.root_inode_number) == Ok::<
                    XfsNode,
                    DriverError,
                >(root),
                forall|found: Option<XfsNode>|
                    #[trigger] may_lead(
                        source,
                        geometry,
                        texts_view(parts@),
                        index as int,
                        entry@,
                        depth as int,
                        found,
                    ) ==> may_lead(source, geometry, given, 0, root, 0, found),
                whole == resolved(source, geometry, path@),
                source.reliable() ==> whole == resolved_from(
                    source,
                    geometry,
                    texts_view(parts@),
                    index as int,
                    entry@,
                    depth as int,
                ),
            decreases XFS_SYMBOLIC_LINK_LIMIT - depth, parts@.len() - index,
        {
            let name: String = chars_text(parts[index].as_slice());
            assert(texts_view(parts@)[index as int] == name@);
            let ghost here = texts_view(parts@);
            let ghost node = entry@;
            let ghost at = index as int;
            let ghost links = depth as int;
            assert(child_of(source.content(), geometry, node.inode, here[at]) == Ok::<
                Option<XfsNode>,
                DriverError,
            >(None) ==> may_lead(source, geometry, here, at, node, links, None));
            let child: XfsFileEntry = match entry.sub_file_entry_by_name(name.as_str())? {
                Some(child) => child,
                None => return Ok(None),
            };
            if child.is_symbolic_link() && parts.len() - index > 1 {
                let target: String = match child.symbolic_link_target()? {
                    Some(target) => target,
                    None => return Ok(None),
                };
                if depth >= XFS_SYMBOLIC_LINK_LIMIT {
                    return Err(DriverError::LimitExceeded);
                }
                let ghost text = target@;
                let target: Vec<char> = text_chars(target.as_str());
                let rewritten: Vec<Vec<char>> = rewrite_path_parts(
                    &parts,
                    index,
                    target.as_slice(),
                );
                entry = self.root_directory()?;
                proof {
                    let data = choose|data: Seq<u8>|
                        #[trigger] is_data_start(source, data_of(geometry, child@.inode), data)
                            && text == stored_utf8_text(data);
                    assert(is_data_start(source, data_of(geometry, child@.inode), data));
                    assert forall|found: Option<XfsNode>|
                        #[trigger] may_lead(
                            source,
                            geometry,
                            texts_view(rewritten@),
                            0,
                            root,
                            links + 1,
                            found,
                        ) implies may_lead(source, geometry, given, 0, root, 0, found) by {
                        assert(may_lead(source, geometry, here, at, node, links, found));
                    }
                }
                parts = rewritten;
                index = 0;
                depth += 1;
            } else {
                proof {
                    assert forall|found: Option<XfsNode>|
                        #[trigger] may_lead(
                            source,
                            geometry,
                            here,
                            at + 1,
                            child@,
                            links,
                            found,
                        ) implies may_lead(source, geometry, given, 0, root, 0, found) by {
                        assert(may_lead(source, geometry, here, at, node, links, found));
                    }
                }
                entry = child;
                index += 1;
            }
        }
        assert(may_lead(
            source,
            geometry,
            texts_view(parts@),
            index as int,
            entry@,
            depth as int,
            Some(entry@),
        ));
        Ok(Some(entry))
    }
}

/// The root path leads to the root directory.
pub proof fn lemma_root_path(source: DataSourceReference, geometry: XfsGeometry)
    ensures
        resolved(source, geometry, seq!['/']) == (match node_of(
            source.content(),
            geometry,
            geometry.root_inode_number,
        ) {
            Err(error) => Err(error),
            Ok(root) => Ok::<Option<XfsNode>, DriverError>(Some(root)),
        }),
{
    lemma_root_parts();
}

/// The path of an entry of a directory, which is that of the directory, a separator and the name of
/// the entry, leads to the entry, unless what is taken for the directory is a symbolic link.
pub proof fn lemma_child_path(
    source: DataSourceReference,
    geometry: XfsGeometry,
    path: Seq<char>,
    name: Seq<char>,
)
    requires
        is_absolute(path),
        name.len() > 0,
        !name.contains('/'),
        resolved(source, geometry, path) matches Ok(Some(node)) ==> !node.inode.is_symbolic_link(),
    ensures
        resolved(source, geometry, path + seq!['/'] + name) == (match resolved(
            source,
            geometry,
            path,
        ) {
            Ok(Some(node)) => child_of(source.content(), geometry, node.inode, name),
            other => other,
        }),
{
    lemma_child_parts(path, name);
    if let Ok(root) = node_of(source.content(), geometry, geometry.root_inode_number) {
        lemma_child_from(source, geometry, path_parts(path), name, 0, root, 0);
    }
}

proof fn lemma_child_from(
    source: DataSourceReference,
    geometry: XfsGeometry,
    parts: Seq<Seq<char>>,
    name: Seq<char>,
    index: int,
    node: XfsNode,
    depth: int,
)
    requires
        0 <= index <= parts.len(),
        resolved_from(source, geometry, parts, index, node, depth) matches Ok(Some(found))
            ==> !found.inode.is_symbolic_link(),
    ensures
        resolved_from(source, geometry, parts.push(name), index, node, depth) == (
        match resolved_from(source, geometry, parts, index, node, depth) {
            Ok(Some(found)) => child_of(source.content(), geometry, found.inode, name),
            other => other,
        }),
    decreases XFS_SYMBOLIC_LINK_LIMIT - depth, parts.len() - index,
{
    let longer = parts.push(name);
    let content = source.content();
    if index < parts.len() {
        assert(longer[index] == parts[index]);
        if let Ok(Some(child)) = child_of(content, geometry, node.inode, parts[index]) {
            if child.inode.is_symbolic_link() {
                if index + 1 == parts.len() {
                    assert(resolved_from(source, geometry, parts, index + 1, child, depth) == Ok::<
                        Option<XfsNode>,
                        DriverError,
                    >(Some(child)));
                } else if depth < XFS_SYMBOLIC_LINK_LIMIT {
                    if let Ok(target) = link_target(source, geometry, child.inode) {
                        if let Ok(root) = node_of(content, geometry, geometry.root_inode_number) {
                            let rewritten = rewritten_parts(
                                parts.take(index),
                                target->0,
                                parts.skip(index + 1),
                            );
                            assert(longer.take(index) =~= parts.take(index));
                            assert(longer.skip(index + 1) =~= parts.skip(index + 1).push(name));
                            assert(rewritten_parts(
                                longer.take(index),
                                target->0,
                                longer.skip(index + 1),
                            ) =~= rewritten.push(name));
                            lemma_child_from(
                                source,
                                geometry,
                                rewritten,
                                name,
                                0,
                                root,
                                depth + 1,
                            );
                        }
                    }
                }
            } else {
                lemma_child_from(source, geometry, parts, name, index + 1, child, depth);
            }
        }
    } else {
        assert(longer[index] == name);
        if let Ok(Some(child)) = child_of(content, geometry, node.inode, name) {
            assert(resolved_from(source, geometry, longer, index + 1, child, depth) == Ok::<
                Option<XfsNode>,
                DriverError,
            >(Some(child)));
        }
    }
}

/// An open regular file is as large as its inode says.
pub proof fn lemma_file_size(
    source: DataSourceReference,
    geometry: XfsGeometry,
    inode: XfsInodeInfo,
    logical: DataSourceReference,
)
    requires
        geometry.is_usable(),
        inode.data_fork_format == 1 ==> inode.data_size <= inode.data_fork.len(),
        data_of(geometry, inode) is Ok,
        is_opened(logical, source, data_of(geometry, inode)->Ok_0),
    ensures
        logical.content().size == inode.data_size,
{
    if inode.data_fork_format != 1 {
        lemma_extents_size(source, geometry, inode);
    }
}

/// Every byte of a file that a block range covers is stored in the range, as far behind the start of its
/// physical block as the byte is behind the start of its logical one. Ranges without data hold zeros,
/// and so do the blocks that no range covers.
pub proof fn lemma_file_byte(
    source: DataSourceReference,
    geometry: XfsGeometry,
    inode: XfsInodeInfo,
    ranges: Seq<XfsBlockRange>,
    logical: DataSourceReference,
    offset: int,
)
    requires
        geometry.is_usable(),
        inode.data_fork_format == 2,
        block_ranges(inode) == Ok::<Seq<XfsBlockRange>, DriverError>(ranges),
        data_of(geometry, inode) is Ok,
        is_opened(logical, source, data_of(geometry, inode)->Ok_0),
        0 <= offset < inode.data_size,
    ensures
        forall|i: int|
            0 <= i < ranges.len() && range_covers(
                #[trigger] ranges[i],
                offset / geometry.block_size as int,
            ) && !ranges[i].is_sparse ==> {
                let block = absolute_block(geometry, ranges[i].physical_block_number);
                &&& block is Ok
                &&& is_byte_at(
                    logical.content(),
                    offset,
                    source.content(),
                    Some(
                        block->Ok_0 * geometry.block_size + (offset
                            - ranges[i].logical_block_number * geometry.block_size),
                    ),
                )
            },
        (forall|i: int|
            0 <= i < ranges.len() && range_covers(
                #[trigger] ranges[i],
                offset / geometry.block_size as int,
            ) ==> ranges[i].is_sparse) ==> is_byte_at(
            logical.content(),
            offset,
            source.content(),
            None,
        ),
{
    let extents = data_extents(geometry, inode)->Ok_0;
    let index = lemma_extents_place(geometry, inode, ranges, offset);
    assert forall|i: int|
        0 <= i < ranges.len() && range_covers(
            #[trigger] ranges[i],
            offset / geometry.block_size as int,
        ) && !ranges[i].is_sparse implies is_byte_at(
        logical.content(),
        offset,
        source.content(),
        Some(
            absolute_block(geometry, ranges[i].physical_block_number)->Ok_0 * geometry.block_size
                + (offset - ranges[i].logical_block_number * geometry.block_size),
        ),
    ) by {
        lemma_placed_byte(
            source,
            extents,
            index,
            offset,
            Some(
                absolute_block(geometry, ranges[i].physical_block_number)->Ok_0
                    * geometry.block_size + (offset - ranges[i].logical_block_number
                    * geometry.block_size),
            ),
        );
    }
    if forall|i: int|
        0 <= i < ranges.len() && range_covers(
            #[trigger] ranges[i],
            offset / geometry.block_size as int,
        ) ==> ranges[i].is_sparse {
        lemma_placed_byte(source, extents, index, offset, None);
    }
}

/// A file whose data is stored in its inode holds as many bytes of the data fork as its size says.
pub proof fn lemma_inline_byte(
    source: DataSourceReference,
    geometry: XfsGeometry,
    inode: XfsInodeInfo,
    logical: DataSourceReference,
    offset: int,
)
    requires
        inode.data_fork_format == 1,
        data_of(geometry, inode) is Ok,
        is_opened(logical, source, data_of(geometry, inode)->Ok_0),
        0 <= offset < inode.data_size <= inode.data_fork.len(),
    ensures
        logical.content().bytes.contains_key(offset),
        logical.content().bytes[offset] == inode.data_fork[offset],
        logical.content().size == inode.data_size,
{
}

/// The target of a symbolic link that is stored in its inode, in UTF-8, is read back. Other files have
/// none.
pub proof fn lemma_link_target(
    source: DataSourceReference,
    geometry: XfsGeometry,
    inode: XfsInodeInfo,
    target: Seq<char>,
)
    requires
        inode.data_fork_format == 1,
        inode.data_size <= inode.data_fork.len(),
        inode.data_fork.take(inode.data_size as int) == vstd::utf8::encode_utf8(target),
    ensures
        inode.is_symbolic_link() ==> link_target(source, geometry, inode) == Ok::<
            Option<Seq<char>>,
            DriverError,
        >(Some(target)),
        !inode.is_symbolic_link() ==> link_target(source, geometry, inode) == Ok::<
            Option<Seq<char>>,
            DriverError,
        >(None),
{
    lemma_stored_utf8_text(target);
}

/// An entry of a directory leads to the inode with its number. Of several entries with one name the last
/// one counts.
pub proof fn lemma_entry_inode(
    content: Content,
    geometry: XfsGeometry,
    inode: XfsInodeInfo,
    entries: XfsEntries,
    index: int,
)
    requires
        entries_of(content, geometry, inode) == Ok::<XfsEntries, DriverError>(entries),
        0 <= index < entries.names.len(),
        forall|i: int|
            index < i < entries.names.len() ==> #[trigger] entries.names[i] != entries.names[index],
    ensures
        child_of(content, geometry, inode, entries.names[index]) == (match inode_of(
            content,
            geometry,
            entries.inode_numbers[index],
        ) {
            Err(error) => Err(error),
            Ok(child) => Ok::<Option<XfsNode>, DriverError>(
                Some(
                    XfsNode {
                        inode_number: entries.inode_numbers[index],
                        inode: child,
                        name: Some(entries.names[index]),
                    },
                ),
            ),
        }),
{
    lemma_last_named_at(entries.names, index);
}

/// The names that stand for a directory itself and for its parent lead to no entry.
pub proof fn lemma_dots(
    content: Content,
    geometry: XfsGeometry,
    inode: XfsInodeInfo,
    name: Seq<char>,
)
    requires
        !is_proper_name(name),
    ensures
        child_of(content, geometry, inode, name) matches Ok(child) ==> child is None,
{
    if inode.is_directory() {
        match inode.inline_data() {
            Some(data) => {
                lemma_inline_entries_proper(data, geometry.has_file_types);
            },
            None => {
                if let Ok(ranges) = block_ranges(inode) {
                    lemma_ranges_proper(content, geometry, ranges, 0, no_entries());
                }
            },
        }
    }
    if let Ok(entries) = entries_of(content, geometry, inode) {
        lemma_last_named(entries.names, name);
    }
}

} // verus!
