//! Ext directories.

use vstd::prelude::*;
use vstd::utf8::encode_utf8;

use crate::bytes::{holds_le, lemma_holds_le, read_u16_le, read_u32_le, u16_le, u32_le};
use crate::error::DriverError;
use crate::filesystem::names::{are_proper_names, is_proper_name, lemma_proper_names_push};
use crate::scan::texts_view;
use crate::text::{lemma_stored_utf8_text, stored_utf8_text, text_chars, utf8_text_lossy};

verus! {

/// The entries of a directory: their names and inode numbers.
pub struct ExtEntries {
    pub names: Seq<Seq<char>>,
    pub inode_numbers: Seq<u32>,
}

/// A directory without entries.
pub open spec fn no_entries() -> ExtEntries {
    ExtEntries { names: Seq::empty(), inode_numbers: Seq::empty() }
}

/// The entries after another one was added. Those that are not in use, and the ones for the
/// directory and its parent, do not count.
pub open spec fn add_entry(entries: ExtEntries, name: Seq<char>, inode_number: u32) -> ExtEntries {
    if inode_number == 0 || name == seq!['.'] || name == seq!['.', '.'] {
        entries
    } else {
        ExtEntries {
            names: entries.names.push(name),
            inode_numbers: entries.inode_numbers.push(inode_number),
        }
    }
}

/// The entries in data from an offset on, after those before them. One without a size ends them.
pub open spec fn entries_from(data: Seq<u8>, offset: int, entries: ExtEntries) -> Result<
    ExtEntries,
    DriverError,
>
    decreases data.len() - offset,
{
    let size = u16_le(data, offset + 4);
    let name_size = data[offset + 6];
    if offset >= data.len() {
        Ok(entries)
    } else if offset + 8 > data.len() {
        Err(DriverError::OutOfBounds)
    } else if size == 0 {
        Ok(entries)
    } else if size < 8 || offset + size > data.len() || 8 + name_size > size {
        Err(DriverError::OutOfBounds)
    } else {
        entries_from(
            data,
            offset + size,
            add_entry(
                entries,
                stored_utf8_text(data.subrange(offset + 8, offset + 8 + name_size)),
                u32_le(data, offset),
            ),
        )
    }
}

/// An entry as it is stored in a directory. The number of an entry that is not in use is zero.
pub struct StoredEntry {
    pub name: Seq<char>,
    pub inode_number: int,
    pub size: int,
}

/// Whether entries fill data from an offset on: each holds the number of an inode, its own size, the
/// size of its name, a type, and behind these eight bytes the name.
pub open spec fn holds_entries(data: Seq<u8>, offset: int, entries: Seq<StoredEntry>) -> bool
    decreases entries.len(),
{
    if entries.len() == 0 {
        offset == data.len()
    } else {
        let entry = entries[0];
        let bytes = encode_utf8(entry.name);
        &&& 0 <= offset
        &&& 8 + bytes.len() <= entry.size
        &&& offset + entry.size <= data.len()
        &&& holds_le(data, offset, 4, entry.inode_number)
        &&& holds_le(data, offset + 4, 2, entry.size)
        &&& holds_le(data, offset + 6, 1, bytes.len() as int)
        &&& forall|k: int| 0 <= k < bytes.len() ==> data[offset + 8 + k] == #[trigger] bytes[k]
        &&& holds_entries(data, offset + entry.size, entries.skip(1))
    }
}

/// The entries that are in use, without those for the directory and its parent.
pub open spec fn used_entries(entries: Seq<StoredEntry>) -> ExtEntries
    decreases entries.len(),
{
    if entries.len() == 0 {
        ExtEntries { names: Seq::empty(), inode_numbers: Seq::empty() }
    } else {
        let rest = used_entries(entries.skip(1));
        if entries[0].inode_number != 0 && is_proper_name(entries[0].name) {
            ExtEntries {
                names: seq![entries[0].name] + rest.names,
                inode_numbers: seq![entries[0].inode_number as u32] + rest.inode_numbers,
            }
        } else {
            rest
        }
    }
}

/// Every entry that is stored in a directory is found, in order.
pub proof fn lemma_entries_stored(data: Seq<u8>, stored: Seq<StoredEntry>)
    requires
        holds_entries(data, 0, stored),
    ensures
        entries_from(data, 0, no_entries()) == Ok::<ExtEntries, DriverError>(used_entries(stored)),
{
    lemma_entries_stored_from(data, 0, stored, no_entries());
    let used = used_entries(stored);
    assert(Seq::<Seq<char>>::empty() + used.names =~= used.names);
    assert(Seq::<u32>::empty() + used.inode_numbers =~= used.inode_numbers);
}

proof fn lemma_entries_stored_from(
    data: Seq<u8>,
    offset: int,
    stored: Seq<StoredEntry>,
    entries: ExtEntries,
)
    requires
        holds_entries(data, offset, stored),
    ensures
        entries_from(data, offset, entries) == Ok::<ExtEntries, DriverError>(
            ExtEntries {
                names: entries.names + used_entries(stored).names,
                inode_numbers: entries.inode_numbers + used_entries(stored).inode_numbers,
            },
        ),
    decreases stored.len(),
{
    if stored.len() == 0 {
        assert(entries.names + used_entries(stored).names =~= entries.names);
        assert(entries.inode_numbers + used_entries(stored).inode_numbers
            =~= entries.inode_numbers);
    } else {
        let entry = stored[0];
        let bytes = encode_utf8(entry.name);
        lemma_holds_le(data, offset, 4, entry.inode_number);
        lemma_holds_le(data, offset + 4, 2, entry.size);
        lemma_holds_le(data, offset + 6, 1, bytes.len() as int);
        assert(data.subrange(offset + 8, offset + 8 + bytes.len()) =~= bytes);
        lemma_stored_utf8_text(entry.name);
        let more = add_entry(entries, entry.name, entry.inode_number as u32);
        lemma_entries_stored_from(data, offset + entry.size, stored.skip(1), more);
        let rest = used_entries(stored.skip(1));
        assert(more.names + rest.names =~= entries.names + used_entries(stored).names);
        assert(more.inode_numbers + rest.inode_numbers =~= entries.inode_numbers + used_entries(
            stored,
        ).inode_numbers);
    }
}

/// Ext directory.
pub struct ExtDirectory {
    pub names: Vec<Vec<char>>,
    pub inode_numbers: Vec<u32>,
}

impl ExtDirectory {
    /// The entries of the directory.
    pub open spec fn view(&self) -> ExtEntries {
        ExtEntries { names: texts_view(self.names@), inode_numbers: self.inode_numbers@ }
    }

    /// Whether there is an inode number for each name.
    pub open spec fn is_sound(&self) -> bool {
        self.names@.len() == self.inode_numbers@.len()
    }

    /// Creates a directory without entries.
    pub fn new() -> (directory: Self)
        ensures
            directory@ == no_entries(),
            directory.is_sound(),
    {
        let directory = ExtDirectory { names: Vec::new(), inode_numbers: Vec::new() };
        assert(directory@.names =~= Seq::<Seq<char>>::empty());
        assert(directory@.inode_numbers =~= Seq::<u32>::empty());
        directory
    }

    fn add(self, name: Vec<char>, inode_number: u32) -> (directory: Self)
        requires
            self.is_sound(),
        ensures
            directory@ == add_entry(self@, name@, inode_number),
            directory.is_sound(),
    {
        proof {
            if name@.len() == 1 && name@[0] == '.' {
                assert(name@ =~= seq!['.']);
            }
            if name@.len() == 2 && name@[0] == '.' && name@[1] == '.' {
                assert(name@ =~= seq!['.', '.']);
            }
        }
        if inode_number == 0 || (name.len() == 1 && name[0] == '.') || (name.len() == 2 && name[0]
            == '.' && name[1] == '.') {
            return self;
        }
        let mut directory = self;
        directory.names.push(name);
        directory.inode_numbers.push(inode_number);
        assert(directory@.names =~= self@.names.push(name@));
        directory
    }

    /// Reads the entries in data.
    pub fn read(data: &[u8]) -> (result: Result<Self, DriverError>)
        ensures
            match result {
                Ok(directory) => {
                    &&& entries_from(data@, 0, no_entries()) == Ok::<ExtEntries, DriverError>(
                        directory@,
                    )
                    &&& directory.is_sound()
                },
                Err(error) => entries_from(data@, 0, no_entries()) == Err::<
                    ExtEntries,
                    DriverError,
                >(error),
            },
    {
        let ghost whole = entries_from(data@, 0, no_entries());
        let length: usize = data.len();
        let mut directory = ExtDirectory::new();
        let mut offset: usize = 0;
        while offset < length
            invariant
                offset <= length,
                length == data@.len(),
                directory.is_sound(),
                whole == entries_from(data@, 0, no_entries()),
                whole == entries_from(data@, offset as int, directory@),
            decreases length - offset,
        {
            if length - offset < 8 {
                return Err(DriverError::OutOfBounds);
            }
            let size: usize = read_u16_le(data, offset + 4) as usize;
            let name_size: usize = data[offset + 6] as usize;
            if size == 0 {
                return Ok(directory);
            }
            if size < 8 || size > length - offset || 8 + name_size > size {
                return Err(DriverError::OutOfBounds);
            }
            let name: String = utf8_text_lossy(
                vstd::slice::slice_subrange(data, offset + 8, offset + 8 + name_size),
            );
            directory = directory.add(text_chars(name.as_str()), read_u32_le(data, offset));
            offset = offset + size;
        }
        Ok(directory)
    }
}

/// The entries of a directory have proper names.
pub proof fn lemma_entries_proper(data: Seq<u8>, offset: int, entries: ExtEntries)
    requires
        are_proper_names(entries.names),
    ensures
        entries_from(data, offset, entries) matches Ok(all) ==> are_proper_names(all.names),
    decreases data.len() - offset,
{
    let size = u16_le(data, offset + 4);
    let name_size = data[offset + 6];
    if offset + 8 <= data.len() && size >= 8 && offset + size <= data.len() && 8 + name_size
        <= size {
        let name = stored_utf8_text(data.subrange(offset + 8, offset + 8 + name_size));
        let more = add_entry(entries, name, u32_le(data, offset));
        if is_proper_name(name) {
            lemma_proper_names_push(entries.names, name);
        }
        lemma_entries_proper(data, offset + size, more);
    }
}

} // verus!
