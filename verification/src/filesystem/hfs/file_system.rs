//! HFS file entries.

use std::collections::HashMap;
use std::sync::Arc;

use vstd::prelude::*;

use super::btree::{btree_header_of, read_btree_header, HfsBtreeHeader};
use super::catalog::{
    add_leaves, entries_sound, entries_view, read_catalog_entries, HfsCatalogEntry, HfsEntryInfo,
};
use super::fork::{
    extent_blocks, fork_data, header_of, lemma_fork_place, read_header, HfsFormat, HfsGeometry,
};
use crate::error::DriverError;
use crate::filesystem::extents::{
    is_byte_at, is_opened, lemma_placed_byte, open_error, opened_content, FileData,
};
use crate::filesystem::path::{
    is_absolute, lemma_child_parts, lemma_root_parts, path_parts, split_absolute_path,
};
use crate::scan::{same_text, texts_view};
use crate::source::data_source::{DataSource, DataSourceReference};
use crate::source::memory::MemoryDataSource;
use crate::text::{chars_text, lowercase_of, text_chars, to_lowercase};

verus! {

/// The identifier of the root directory.
pub const HFS_ROOT_DIRECTORY_IDENTIFIER: u32 = 2;

/// The last entry with an identifier.
pub open spec fn last_identified(entries: Seq<HfsEntryInfo>, identifier: u32) -> Option<
    HfsEntryInfo,
>
    decreases entries.len(),
{
    if entries.len() == 0 {
        None
    } else if entries.last().identifier == identifier {
        Some(entries.last())
    } else {
        last_identified(entries.drop_last(), identifier)
    }
}

/// The identifier of the last entry of a directory with a name. Case does not matter.
pub open spec fn child_identifier(
    entries: Seq<HfsEntryInfo>,
    parent_identifier: u32,
    name: Seq<char>,
) -> Option<u32>
    decreases entries.len(),
{
    if entries.len() == 0 {
        None
    } else if entries.last().parent_identifier == parent_identifier && lowercase_of(
        entries.last().name,
    ) == lowercase_of(name) {
        Some(entries.last().identifier)
    } else {
        child_identifier(entries.drop_last(), parent_identifier, name)
    }
}

/// The identifier that the parts of a path from `index` on lead to, starting at an identifier.
pub open spec fn resolved_from(
    entries: Seq<HfsEntryInfo>,
    parts: Seq<Seq<char>>,
    index: int,
    identifier: u32,
) -> Option<u32>
    decreases parts.len() - index,
{
    if index < 0 || index >= parts.len() {
        Some(identifier)
    } else {
        match child_identifier(entries, identifier, parts[index]) {
            None => None,
            Some(child) => resolved_from(entries, parts, index + 1, child),
        }
    }
}

/// Whether there is a file entry with an identifier. There always is one for the root directory.
pub open spec fn has_identifier(entries: Seq<HfsEntryInfo>, identifier: u32) -> bool {
    identifier == HFS_ROOT_DIRECTORY_IDENTIFIER || last_identified(entries, identifier) is Some
}

/// The identifier of the file entry at a path, which has to be absolute.
pub open spec fn resolved(entries: Seq<HfsEntryInfo>, path: Seq<char>) -> Option<u32> {
    if !is_absolute(path) {
        None
    } else {
        resolved_from(entries, path_parts(path), 0, HFS_ROOT_DIRECTORY_IDENTIFIER)
    }
}

/// A child that was found by name is an entry.
proof fn lemma_child_identifier(
    entries: Seq<HfsEntryInfo>,
    parent_identifier: u32,
    name: Seq<char>,
)
    ensures
        child_identifier(entries, parent_identifier, name) matches Some(child)
            ==> last_identified(entries, child) is Some,
    decreases entries.len(),
{
    if entries.len() > 0 {
        lemma_child_identifier(entries.drop_last(), parent_identifier, name);
    }
}

/// Every path leads to a file entry or to nothing.
pub proof fn lemma_resolved_from(
    entries: Seq<HfsEntryInfo>,
    parts: Seq<Seq<char>>,
    index: int,
    identifier: u32,
)
    requires
        has_identifier(entries, identifier),
    ensures
        resolved_from(entries, parts, index, identifier) matches Some(found) ==> has_identifier(
            entries,
            found,
        ),
    decreases parts.len() - index,
{
    if 0 <= index < parts.len() {
        lemma_child_identifier(entries, identifier, parts[index]);
        if let Some(child) = child_identifier(entries, identifier, parts[index]) {
            lemma_resolved_from(entries, parts, index + 1, child);
        }
    }
}

/// What is known of a file system once it is open: how blocks are addressed, and the entries of its
/// catalog.
pub open spec fn opened_volume(source: DataSourceReference) -> Result<
    (HfsGeometry, Seq<HfsEntryInfo>),
    DriverError,
> {
    match header_of(source.content()) {
        Err(error) => Err(error),
        Ok((geometry, fork)) => match open_error(source, fork_data(geometry, fork)) {
            Some(error) => Err(error),
            None => {
                let data = fork_data(geometry, fork)->Ok_0;
                let catalog = opened_content(source, data);
                match btree_header_of(catalog) {
                    Err(error) => Err(error),
                    Ok(header) => match add_leaves(
                        catalog,
                        geometry.format,
                        header.node_size,
                        header.first_leaf_node_number,
                        Seq::empty(),
                        Seq::empty(),
                    ) {
                        Err(error) => Err(error),
                        Ok(entries) => Ok((geometry, entries)),
                    },
                }
            },
        },
    }
}

/// Where the data of a file is. A directory has none.
pub open spec fn data_of(geometry: HfsGeometry, entry: HfsEntryInfo) -> Result<
    Option<FileData>,
    DriverError,
> {
    if entry.is_directory {
        Ok(None)
    } else {
        match entry.data_fork {
            None => Ok(Some(FileData::Inline(Seq::empty()))),
            Some(fork) => match fork_data(geometry, fork) {
                Err(error) => Err(error),
                Ok(data) => Ok(Some(data)),
            },
        }
    }
}

/// Every byte of a file lies in the extent of its data fork that covers it, as far behind the first block
/// of the extent as it lies behind the blocks of the extents before it.
pub proof fn lemma_file_byte(
    source: DataSourceReference,
    geometry: HfsGeometry,
    entry: HfsEntryInfo,
    logical: DataSourceReference,
    index: int,
    relative_offset: int,
)
    requires
        !entry.is_directory,
        entry.data_fork is Some,
        entry.data_fork->0.size > 0,
        data_of(geometry, entry) is Ok,
        is_opened(logical, source, data_of(geometry, entry)->Ok_0->0),
        0 <= index < entry.data_fork->0.extents.len(),
        0 <= relative_offset < entry.data_fork->0.extents[index].number_of_blocks
            * geometry.block_size,
        extent_blocks(entry.data_fork->0.extents.take(index)) * geometry.block_size
            + relative_offset < entry.data_fork->0.size,
    ensures
        is_byte_at(
            logical.content(),
            extent_blocks(entry.data_fork->0.extents.take(index)) * geometry.block_size
                + relative_offset,
            source.content(),
            Some(
                (entry.data_fork->0.extents[index].block_number + (if geometry.format
                    == HfsFormat::Hfs {
                    geometry.data_area_block_number as int
                } else {
                    0
                })) * geometry.block_size + relative_offset,
            ),
        ),
{
    let fork = entry.data_fork->0;
    lemma_fork_place(geometry, fork, index, relative_offset);
    let extents = fork_data(geometry, fork)->Ok_0->Stored_0;
    lemma_placed_byte(
        source,
        extents,
        index,
        extent_blocks(fork.extents.take(index)) * geometry.block_size + relative_offset,
        Some(
            (fork.extents[index].block_number + (if geometry.format == HfsFormat::Hfs {
                geometry.data_area_block_number as int
            } else {
                0
            })) * geometry.block_size + relative_offset,
        ),
    );
}

/// A path of a directory and a name leads to the entry of the directory with that name, whatever the
/// case of its letters. Of several such entries the last one counts.
pub proof fn lemma_child_found(
    entries: Seq<HfsEntryInfo>,
    parent_identifier: u32,
    name: Seq<char>,
    at: int,
)
    requires
        0 <= at < entries.len(),
        entries[at].parent_identifier == parent_identifier,
        lowercase_of(entries[at].name) == lowercase_of(name),
        forall|i: int|
            at < i < entries.len() ==> (#[trigger] entries[i]).parent_identifier
                != parent_identifier || lowercase_of(entries[i].name) != lowercase_of(name),
    ensures
        child_identifier(entries, parent_identifier, name) == Some(entries[at].identifier),
    decreases entries.len(),
{
    if at < entries.len() - 1 {
        let front = entries.drop_last();
        assert(entries[entries.len() - 1].parent_identifier != parent_identifier || lowercase_of(
            entries[entries.len() - 1].name,
        ) != lowercase_of(name));
        assert forall|i: int| at < i < front.len() implies (#[trigger] front[i]).parent_identifier
            != parent_identifier || lowercase_of(front[i].name) != lowercase_of(name) by {
            assert(front[i] == entries[i]);
        }
        lemma_child_found(front, parent_identifier, name, at);
    }
}

/// The last entry with an identifier is the one after which no other has it.
proof fn lemma_last_identified(entries: Seq<HfsEntryInfo>, identifier: u32, at: int)
    requires
        -1 <= at < entries.len(),
        at >= 0 ==> entries[at].identifier == identifier,
        forall|i: int| at < i < entries.len() ==> (#[trigger] entries[i]).identifier != identifier,
    ensures
        last_identified(entries, identifier) == (if at < 0 {
            None
        } else {
            Some(entries[at])
        }),
    decreases entries.len(),
{
    if entries.len() > 0 && at < entries.len() - 1 {
        let front = entries.drop_last();
        assert(entries.last() == entries[entries.len() - 1]);
        assert forall|i: int| at < i < front.len() implies (#[trigger] front[i]).identifier
            != identifier by {
            assert(front[i] == entries[i]);
        }
        lemma_last_identified(front, identifier, at);
    }
}

/// Whether places are those of the last entries with each identifier, of the first `count` entries.
spec fn are_places(
    entries: Seq<HfsCatalogEntry>,
    count: int,
    places: Map<u32, usize>,
) -> bool {
    &&& forall|identifier: u32|
        #[trigger] places.contains_key(identifier) ==> {
            &&& places[identifier] < count
            &&& entries[places[identifier] as int].identifier == identifier
            &&& forall|i: int|
                places[identifier] < i < count ==> (#[trigger] entries[i]).identifier != identifier
        }
    &&& forall|i: int|
        0 <= i < count ==> places.contains_key((#[trigger] entries[i]).identifier)
}

/// An open HFS volume: its source, how blocks are addressed, and the entries of its catalog with
/// the places of their identifiers and their names in lower case.
pub struct HfsVolume {
    source: DataSourceReference,
    geometry: HfsGeometry,
    entries: Vec<HfsCatalogEntry>,
    places: HashMap<u32, usize>,
    lookup_names: Vec<Vec<char>>,
}

impl HfsVolume {
    /// The source of the volume.
    pub closed spec fn spec_source(&self) -> DataSourceReference {
        self.source
    }

    /// How blocks are addressed.
    pub closed spec fn spec_geometry(&self) -> HfsGeometry {
        self.geometry
    }

    /// The entries of the catalog.
    pub closed spec fn spec_entries(&self) -> Seq<HfsEntryInfo> {
        entries_view(self.entries@)
    }

    #[verifier::type_invariant]
    spec fn well_formed(self) -> bool {
        &&& entries_sound(self.entries@)
        &&& are_places(self.entries@, self.entries@.len() as int, self.places@)
        &&& self.lookup_names@.len() == self.entries@.len()
        &&& forall|i: int|
            0 <= i < self.entries@.len() ==> (#[trigger] self.lookup_names@[i])@ == lowercase_of(
                self.entries@[i].name@,
            )
    }

    fn new(source: DataSourceReference, geometry: HfsGeometry, entries: Vec<HfsCatalogEntry>) -> (volume:
        Self)
        requires
            entries_sound(entries@),
        ensures
            volume.spec_source() == source,
            volume.spec_geometry() == geometry,
            volume.spec_entries() == entries_view(entries@),
    {
        broadcast use vstd::std_specs::hash::group_hash_axioms;

        let mut places: HashMap<u32, usize> = HashMap::new();
        let mut lookup_names: Vec<Vec<char>> = Vec::new();
        let mut index: usize = 0;
        while index < entries.len()
            invariant
                index <= entries@.len(),
                are_places(entries@, index as int, places@),
                lookup_names@.len() == index,
                forall|i: int|
                    0 <= i < index ==> (#[trigger] lookup_names@[i])@ == lowercase_of(
                        entries@[i].name@,
                    ),
            decreases entries@.len() - index,
        {
            let lower: String = to_lowercase(entries[index].name.as_str());
            lookup_names.push(text_chars(lower.as_str()));
            places.insert(entries[index].identifier, index);
            index += 1;
        }
        HfsVolume { source, geometry, entries, places, lookup_names }
    }

    fn find_entry(&self, identifier: u32) -> (entry: Option<&HfsCatalogEntry>)
        ensures
            match entry {
                Some(entry) => {
                    &&& last_identified(self.spec_entries(), identifier) == Some(entry@)
                    &&& entry.is_sound()
                },
                None => last_identified(self.spec_entries(), identifier) is None,
            },
    {
        broadcast use vstd::std_specs::hash::group_hash_axioms;

        proof {
            use_type_invariant(self);
        }
        let ghost views = self.spec_entries();
        match self.places.get(&identifier) {
            Some(place) => {
                let at: usize = *place;
                proof {
                    assert forall|i: int| at < i < views.len() implies (
                    #[trigger] views[i]).identifier != identifier by {
                        assert(views[i] == self.entries@[i]@);
                    }
                    lemma_last_identified(views, identifier, at as int);
                }
                Some(&self.entries[at])
            },
            None => {
                proof {
                    assert forall|i: int| 0 <= i < views.len() implies (
                    #[trigger] views[i]).identifier != identifier by {
                        assert(views[i] == self.entries@[i]@);
                    }
                    lemma_last_identified(views, identifier, -1);
                }
                None
            },
        }
    }

    fn find_child(&self, parent_identifier: u32, name: &[char]) -> (identifier: Option<u32>)
        ensures
            identifier == child_identifier(self.spec_entries(), parent_identifier, name@),
    {
        proof {
            use_type_invariant(self);
        }
        let ghost views = self.spec_entries();
        let text: String = chars_text(name);
        let lower: String = to_lowercase(text.as_str());
        let lookup_name: Vec<char> = text_chars(lower.as_str());
        let mut end: usize = self.entries.len();
        assert(views.take(end as int) =~= views);
        while end > 0
            invariant
                end <= self.entries@.len(),
                self.lookup_names@.len() == self.entries@.len(),
                views == entries_view(self.entries@),
                forall|i: int|
                    0 <= i < self.entries@.len() ==> (#[trigger] self.lookup_names@[i])@
                        == lowercase_of(self.entries@[i].name@),
                lookup_name@ == lowercase_of(name@),
                child_identifier(views, parent_identifier, name@) == child_identifier(
                    views.take(end as int),
                    parent_identifier,
                    name@,
                ),
            decreases end,
        {
            let ghost taken = views.take(end as int);
            assert(taken.drop_last() =~= views.take(end - 1));
            assert(taken.last() == self.entries@[end - 1]@);
            assert(self.lookup_names@[end - 1]@ == lowercase_of(self.entries@[end - 1].name@));
            if self.entries[end - 1].parent_identifier == parent_identifier && same_text(
                self.lookup_names[end - 1].as_slice(),
                lookup_name.as_slice(),
            ) {
                return Some(self.entries[end - 1].identifier);
            }
            end -= 1;
        }
        None
    }
}

/// Immutable HFS file entry.
pub struct HfsFileEntry {
    volume: Arc<HfsVolume>,
    identifier: u32,
}

impl HfsFileEntry {
    /// The volume that the file entry belongs to.
    pub closed spec fn spec_volume(&self) -> HfsVolume {
        *self.volume
    }

    /// The identifier of the file entry.
    pub closed spec fn spec_identifier(&self) -> u32 {
        self.identifier
    }

    /// The catalog entry of the file entry.
    pub open spec fn spec_entry(&self) -> Option<HfsEntryInfo> {
        last_identified(self.spec_volume().spec_entries(), self.spec_identifier())
    }

    /// Retrieves the identifier.
    pub fn identifier(&self) -> (identifier: u32)
        ensures
            identifier == self.spec_identifier(),
    {
        self.identifier
    }

    /// Retrieves the name.
    pub fn name(&self) -> (name: Option<&str>)
        ensures
            match name {
                Some(name) => self.spec_entry() is Some && name@ == self.spec_entry()->0.name,
                None => self.spec_entry() is None,
            },
    {
        match self.volume.find_entry(self.identifier) {
            Some(entry) => Some(entry.name.as_str()),
            None => None,
        }
    }

    /// Determines if the entry is a directory.
    pub fn is_directory(&self) -> (is_directory: bool)
        ensures
            is_directory == (match self.spec_entry() {
                Some(entry) => entry.is_directory,
                None => self.spec_identifier() == HFS_ROOT_DIRECTORY_IDENTIFIER,
            }),
    {
        match self.volume.find_entry(self.identifier) {
            Some(entry) => entry.is_directory,
            None => self.identifier == HFS_ROOT_DIRECTORY_IDENTIFIER,
        }
    }

    /// Retrieves the size.
    pub fn size(&self) -> (size: u64)
        ensures
            size == (match self.spec_entry() {
                Some(entry) => match entry.data_fork {
                    Some(fork) => fork.size,
                    None => 0,
                },
                None => 0,
            }),
    {
        match self.volume.find_entry(self.identifier) {
            Some(entry) => match &entry.data_fork {
                Some(fork) => fork.size,
                None => 0,
            },
            None => 0,
        }
    }

    /// Opens the default data source.
    pub fn open_source(&self) -> (result: Result<Option<DataSourceReference>, DriverError>)
        ensures
            match self.spec_entry() {
                None => result matches Ok(None),
                Some(entry) => match data_of(self.spec_volume().spec_geometry(), entry) {
                    Err(expected) => result == Err::<Option<DataSourceReference>, DriverError>(
                        expected,
                    ),
                    Ok(None) => result matches Ok(None),
                    Ok(Some(data)) => match open_error(self.spec_volume().spec_source(), Ok(data)) {
                        Some(error) => result == Err::<Option<DataSourceReference>, DriverError>(
                            error,
                        ),
                        None => {
                            &&& result is Ok
                            &&& result->Ok_0 is Some
                            &&& is_opened(
                                result->Ok_0->0,
                                self.spec_volume().spec_source(),
                                data,
                            )
                        },
                    },
                },
            },
    {
        let entry: &HfsCatalogEntry = match self.volume.find_entry(self.identifier) {
            Some(entry) => entry,
            None => return Ok(None),
        };
        if entry.is_directory {
            return Ok(None);
        }
        match &entry.data_fork {
            Some(fork) => {
                let logical = fork.open(&self.volume.source, self.volume.geometry)?;
                Ok(Some(logical))
            },
            None => {
                let data: Vec<u8> = Vec::new();
                assert(data@ =~= Seq::<u8>::empty());
                Ok(Some(MemoryDataSource::new(data).into_reference()))
            },
        }
    }
}

/// Immutable HFS file system.
pub struct HfsFileSystem {
    volume: Arc<HfsVolume>,
}

impl HfsFileSystem {
    /// The volume of the file system.
    pub closed spec fn spec_volume(&self) -> HfsVolume {
        *self.volume
    }

    /// Opens and parses an HFS or HFS+ file system.
    pub fn open(source: DataSourceReference) -> (result: Result<Self, DriverError>)
        ensures
            match result {
                Ok(file_system) => {
                    &&& file_system.spec_volume().spec_source() == source
                    &&& opened_volume(source) == Ok::<
                        (HfsGeometry, Seq<HfsEntryInfo>),
                        DriverError,
                    >(
                        (
                            file_system.spec_volume().spec_geometry(),
                            file_system.spec_volume().spec_entries(),
                        ),
                    )
                },
                Err(error) => source.reliable() ==> opened_volume(source) == Err::<
                    (HfsGeometry, Seq<HfsEntryInfo>),
                    DriverError,
                >(error),
            },
    {
        let (geometry, fork) = read_header(&source)?;
        let catalog = fork.open(&source, geometry)?;
        let header: HfsBtreeHeader = read_btree_header(&catalog)?;
        let entries: Vec<HfsCatalogEntry> = read_catalog_entries(
            &catalog,
            geometry.format,
            header,
        )?;
        Ok(HfsFileSystem { volume: Arc::new(HfsVolume::new(source, geometry, entries)) })
    }

    /// Retrieves the format.
    pub fn format(&self) -> (format: HfsFormat)
        ensures
            format == self.spec_volume().spec_geometry().format,
    {
        self.volume.geometry.format
    }

    /// Retrieves the root directory.
    pub fn root_directory(&self) -> (result: Result<HfsFileEntry, DriverError>)
        ensures
            result matches Ok(entry) && entry.spec_volume() == self.spec_volume()
                && entry.spec_identifier() == HFS_ROOT_DIRECTORY_IDENTIFIER,
    {
        match self.file_entry_by_identifier(HFS_ROOT_DIRECTORY_IDENTIFIER)? {
            Some(entry) => Ok(entry),
            None => Err(DriverError::Missing),
        }
    }

    /// Retrieves a file entry by catalog node identifier.
    pub fn file_entry_by_identifier(&self, identifier: u32) -> (result: Result<
        Option<HfsFileEntry>,
        DriverError,
    >)
        ensures
            match result {
                Ok(Some(entry)) => {
                    &&& has_identifier(self.spec_volume().spec_entries(), identifier)
                    &&& entry.spec_volume() == self.spec_volume()
                    &&& entry.spec_identifier() == identifier
                },
                Ok(None) => !has_identifier(self.spec_volume().spec_entries(), identifier),
                Err(error) => false,
            },
    {
        if identifier == HFS_ROOT_DIRECTORY_IDENTIFIER || self.volume.find_entry(
            identifier,
        ).is_some() {
            return Ok(Some(HfsFileEntry { volume: self.volume.clone(), identifier }));
        }
        Ok(None)
    }

    /// Retrieves a file entry by absolute path.
    pub fn file_entry_by_path(&self, path: &str) -> (result: Result<
        Option<HfsFileEntry>,
        DriverError,
    >)
        ensures
            match result {
                Ok(Some(entry)) => {
                    &&& entry.spec_volume() == self.spec_volume()
                    &&& resolved(self.spec_volume().spec_entries(), path@) == Some(
                        entry.spec_identifier(),
                    )
                },
                Ok(None) => resolved(self.spec_volume().spec_entries(), path@) is None,
                Err(error) => false,
            },
    {
        let ghost entries = self.spec_volume().spec_entries();
        let parts: Vec<Vec<char>> = match split_absolute_path(path) {
            Some(parts) => parts,
            None => return Ok(None),
        };
        let mut identifier: u32 = HFS_ROOT_DIRECTORY_IDENTIFIER;
        let mut index: usize = 0;
        while index < parts.len()
            invariant
                index <= parts@.len(),
                entries == self.spec_volume().spec_entries(),
                has_identifier(entries, identifier),
                resolved(entries, path@) == resolved_from(
                    entries,
                    texts_view(parts@),
                    index as int,
                    identifier,
                ),
            decreases parts@.len() - index,
        {
            assert(texts_view(parts@)[index as int] == parts@[index as int]@);
            proof {
                lemma_child_identifier(entries, identifier, parts@[index as int]@);
            }
            identifier =
            match self.volume.find_child(identifier, parts[index].as_slice()) {
                Some(child) => child,
                None => return Ok(None),
            };
            index += 1;
        }
        self.file_entry_by_identifier(identifier)
    }
}

/// The root path leads to the root directory.
pub proof fn lemma_root_path(entries: Seq<HfsEntryInfo>)
    ensures
        resolved(entries, seq!['/']) == Some(HFS_ROOT_DIRECTORY_IDENTIFIER),
{
    lemma_root_parts();
}

/// The path of an entry of a directory, which is that of the directory, a separator and the name of
/// the entry, leads to the entry.
pub proof fn lemma_child_path(entries: Seq<HfsEntryInfo>, path: Seq<char>, name: Seq<char>)
    requires
        is_absolute(path),
        name.len() > 0,
        !name.contains('/'),
    ensures
        resolved(entries, path + seq!['/'] + name) == (match resolved(entries, path) {
            Some(identifier) => child_identifier(entries, identifier, name),
            None => None,
        }),
{
    lemma_child_parts(path, name);
    lemma_child_from(entries, path_parts(path), name, 0, HFS_ROOT_DIRECTORY_IDENTIFIER);
}

proof fn lemma_child_from(
    entries: Seq<HfsEntryInfo>,
    parts: Seq<Seq<char>>,
    name: Seq<char>,
    index: int,
    identifier: u32,
)
    requires
        0 <= index <= parts.len(),
    ensures
        resolved_from(entries, parts.push(name), index, identifier) == (match resolved_from(
            entries,
            parts,
            index,
            identifier,
        ) {
            Some(found) => child_identifier(entries, found, name),
            None => None,
        }),
    decreases parts.len() - index,
{
    let longer = parts.push(name);
    if index < parts.len() {
        assert(longer[index] == parts[index]);
        if let Some(child) = child_identifier(entries, identifier, parts[index]) {
            lemma_child_from(entries, parts, name, index + 1, child);
        }
    } else {
        assert(longer[index] == name);
        if let Some(child) = child_identifier(entries, identifier, name) {
            assert(resolved_from(entries, longer, index + 1, child) == Some(child));
        }
    }
}

/// Names that are the same in lower case lead to the same entry of a directory.
pub proof fn lemma_case_insensitive(
    entries: Seq<HfsEntryInfo>,
    parent_identifier: u32,
    name: Seq<char>,
    other: Seq<char>,
)
    requires
        lowercase_of(name) == lowercase_of(other),
    ensures
        child_identifier(entries, parent_identifier, name) == child_identifier(
            entries,
            parent_identifier,
            other,
        ),
    decreases entries.len(),
{
    if entries.len() > 0 {
        lemma_case_insensitive(entries.drop_last(), parent_identifier, name, other);
    }
}

} // verus!
