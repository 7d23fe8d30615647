//! PDI disk descriptors.

use vstd::prelude::*;

use crate::error::DriverError;
use crate::scan::{
    find_first_section, find_from, find_pattern, find_sections, first_section, is_space, is_trimmed,
    lemma_number_read_back, lemma_number_word, lemma_sections, lemma_trimmed, matches_at,
    number_text, number_value, parse_number, same_text, sections, sections_from, texts_view,
    trim_text, trimmed,
};
use crate::text::{chars_text, text_chars};
use crate::uuid::{nil_uuid, text_uuid, Uuid};

verus! {

/// An image file that stores an extent for a snapshot.
pub struct PdiImageFile {
    pub file: Seq<char>,
    pub is_compressed: bool,
    pub snapshot_identifier: Uuid,
}

/// An extent of the disk.
pub struct PdiExtent {
    pub start_sector: u64,
    pub end_sector: u64,
    pub images: Seq<PdiImageFile>,
}

/// A snapshot of the disk.
#[derive(Clone, Copy)]
pub struct PdiSnapshot {
    pub identifier: Uuid,
    pub parent_identifier: Option<Uuid>,
}

/// What a descriptor says.
pub struct PdiDescriptor {
    pub media_size: u64,
    pub snapshots: Seq<PdiSnapshot>,
    pub extents: Seq<PdiExtent>,
}

/// The opening mark of an element.
pub open spec fn open_mark(tag: Seq<char>) -> Seq<char> {
    seq!['<'] + tag + seq!['>']
}

/// The closing mark of an element.
pub open spec fn close_mark(tag: Seq<char>) -> Seq<char> {
    seq!['<', '/'] + tag + seq!['>']
}

/// The first element with a tag.
pub open spec fn element(text: Seq<char>, tag: Seq<char>) -> Result<Seq<char>, DriverError> {
    first_section(text, open_mark(tag), close_mark(tag))
}

/// The elements with a tag.
pub open spec fn elements(text: Seq<char>, tag: Seq<char>) -> Result<Seq<Seq<char>>, DriverError> {
    sections(text, open_mark(tag), close_mark(tag))
}

/// The text of the first element with a tag.
pub open spec fn element_text(text: Seq<char>, tag: Seq<char>) -> Result<Seq<char>, DriverError> {
    match element(text, tag) {
        Err(error) => Err(error),
        Ok(part) => Ok(trimmed(part)),
    }
}

/// The number in the first element with a tag.
pub open spec fn element_number(text: Seq<char>, tag: Seq<char>) -> Result<u64, DriverError> {
    match element_text(text, tag) {
        Err(error) => Err(error),
        Ok(part) => match number_value(part, 10, u64::MAX as int) {
            None => Err(DriverError::Invalid),
            Some(number) => Ok(number),
        },
    }
}

/// The identifier in the first element with a tag.
pub open spec fn element_uuid(text: Seq<char>, tag: Seq<char>) -> Result<Uuid, DriverError> {
    match element_text(text, tag) {
        Err(error) => Err(error),
        Ok(part) => text_uuid(part),
    }
}

/// Whether the first element with a tag in a text goes from a position to another one: its opening mark
/// stands in front of it and no earlier one does, and its closing mark is the first one behind it.
pub open spec fn holds_element(text: Seq<char>, tag: Seq<char>, start: int, end: int) -> bool {
    let open = open_mark(tag);
    let close = close_mark(tag);
    &&& open.len() <= start <= end
    &&& matches_at(text, open, start - open.len())
    &&& forall|i: int| 0 <= i < start - open.len() ==> !#[trigger] matches_at(text, open, i)
    &&& matches_at(text, close, end)
    &&& forall|i: int| start <= i < end ==> !#[trigger] matches_at(text, close, i)
}

/// The first element with a tag is the text between its marks, as long as every mark behind it that opens
/// such an element is closed.
pub proof fn lemma_element(text: Seq<char>, tag: Seq<char>, start: int, end: int)
    requires
        holds_element(text, tag, start, end),
        sections_from(text, open_mark(tag), close_mark(tag), end + close_mark(tag).len()) is Ok,
    ensures
        element(text, tag) == Ok::<Seq<char>, DriverError>(text.subrange(start, end)),
{
    let open = open_mark(tag);
    assert(0 < open.len() && 0 < close_mark(tag).len());
    lemma_sections(text, open, close_mark(tag), 0, start - open.len(), end);
}

/// The number in an element is read back, with any white space around it.
pub proof fn lemma_element_number(
    text: Seq<char>,
    tag: Seq<char>,
    start: int,
    end: int,
    before: Seq<char>,
    number: u64,
    after: Seq<char>,
)
    requires
        holds_element(text, tag, start, end),
        sections_from(text, open_mark(tag), close_mark(tag), end + close_mark(tag).len()) is Ok,
        text.subrange(start, end) == before + number_text(number as nat, 10) + after,
        is_space(before),
        is_space(after),
    ensures
        element_number(text, tag) == Ok::<u64, DriverError>(number),
{
    lemma_element(text, tag, start, end);
    lemma_number_word(number as nat);
    lemma_trimmed(before, number_text(number as nat, 10), after);
    lemma_number_read_back(number as nat, 10, u64::MAX as int);
}

/// The text in an element is read back without the white space around it.
pub proof fn lemma_element_text(
    text: Seq<char>,
    tag: Seq<char>,
    start: int,
    end: int,
    before: Seq<char>,
    inner: Seq<char>,
    after: Seq<char>,
)
    requires
        holds_element(text, tag, start, end),
        sections_from(text, open_mark(tag), close_mark(tag), end + close_mark(tag).len()) is Ok,
        text.subrange(start, end) == before + inner + after,
        is_space(before),
        is_space(after),
        is_trimmed(inner),
    ensures
        element_text(text, tag) == Ok::<Seq<char>, DriverError>(inner),
{
    lemma_element(text, tag, start, end);
    lemma_trimmed(before, inner, after);
}

/// The media size that the disk parameters give. Only sectors of 512 bytes on a disk with sectors
/// of 4096 bytes without padding are supported.
pub open spec fn disk_size(text: Seq<char>) -> Result<u64, DriverError> {
    match element(text, "Disk_Parameters"@) {
        Err(error) => Err(error),
        Ok(parameters) => match element_number(parameters, "Disk_size"@) {
            Err(error) => Err(error),
            Ok(sectors) => match element_number(parameters, "LogicSectorSize"@) {
                Err(error) => Err(error),
                Ok(logical) => match element_number(parameters, "PhysicalSectorSize"@) {
                    Err(error) => Err(error),
                    Ok(physical) => match element_number(parameters, "Padding"@) {
                        Err(error) => Err(error),
                        Ok(padding) => if logical != 512 || physical != 4096 || padding != 0 {
                            Err(DriverError::Unsupported)
                        } else if sectors * 512 > u64::MAX {
                            Err(DriverError::Overflow)
                        } else {
                            Ok((sectors * 512) as u64)
                        },
                    },
                },
            },
        },
    }
}

/// The snapshot that an element describes.
pub open spec fn snapshot_in(text: Seq<char>) -> Result<PdiSnapshot, DriverError> {
    match element_uuid(text, "GUID"@) {
        Err(error) => Err(error),
        Ok(identifier) => match element_uuid(text, "ParentGUID"@) {
            Err(error) => Err(error),
            Ok(parent) => Ok(
                PdiSnapshot {
                    identifier,
                    parent_identifier: if parent == nil_uuid() {
                        None
                    } else {
                        Some(parent)
                    },
                },
            ),
        },
    }
}

/// The snapshots that a list of elements describes.
pub open spec fn snapshots_in(parts: Seq<Seq<char>>) -> Result<Seq<PdiSnapshot>, DriverError>
    decreases parts.len(),
{
    if parts.len() == 0 {
        Ok(Seq::empty())
    } else {
        match snapshots_in(parts.drop_last()) {
            Err(error) => Err(error),
            Ok(snapshots) => match snapshot_in(parts.last()) {
                Err(error) => Err(error),
                Ok(snapshot) => Ok(snapshots.push(snapshot)),
            },
        }
    }
}

/// The snapshots of the disk.
pub open spec fn snapshots_of(text: Seq<char>) -> Result<Seq<PdiSnapshot>, DriverError> {
    match element(text, "Snapshots"@) {
        Err(error) => Err(error),
        Ok(part) => match elements(part, "Shot"@) {
            Err(error) => Err(error),
            Ok(parts) => snapshots_in(parts),
        },
    }
}

/// The image file that an element describes.
pub open spec fn image_in(text: Seq<char>) -> Result<PdiImageFile, DriverError> {
    match element_uuid(text, "GUID"@) {
        Err(error) => Err(error),
        Ok(snapshot_identifier) => match element_text(text, "Type"@) {
            Err(error) => Err(error),
            Ok(kind) => if kind != "Compressed"@ && kind != "Plain"@ {
                Err(DriverError::Unsupported)
            } else {
                match element_text(text, "File"@) {
                    Err(error) => Err(error),
                    Ok(file) => if file.len() == 0 {
                        Err(DriverError::Missing)
                    } else {
                        Ok(
                            PdiImageFile {
                                file,
                                is_compressed: kind == "Compressed"@,
                                snapshot_identifier,
                            },
                        )
                    },
                }
            },
        },
    }
}

/// The image files that a list of elements describes.
pub open spec fn images_in(parts: Seq<Seq<char>>) -> Result<Seq<PdiImageFile>, DriverError>
    decreases parts.len(),
{
    if parts.len() == 0 {
        Ok(Seq::empty())
    } else {
        match images_in(parts.drop_last()) {
            Err(error) => Err(error),
            Ok(images) => match image_in(parts.last()) {
                Err(error) => Err(error),
                Ok(image) => Ok(images.push(image)),
            },
        }
    }
}

/// The extent that an element describes, which has to start at `start`. Only blocks of 2048
/// sectors are supported.
pub open spec fn extent_in(text: Seq<char>, start: u64) -> Result<PdiExtent, DriverError> {
    match element_number(text, "Start"@) {
        Err(error) => Err(error),
        Ok(start_sector) => match element_number(text, "End"@) {
            Err(error) => Err(error),
            Ok(end_sector) => match element_number(text, "Blocksize"@) {
                Err(error) => Err(error),
                Ok(block_size) => if block_size != 2048 {
                    Err(DriverError::Unsupported)
                } else if start_sector >= end_sector || start_sector != start {
                    Err(DriverError::Invalid)
                } else {
                    match elements(text, "Image"@) {
                        Err(error) => Err(error),
                        Ok(parts) => match images_in(parts) {
                            Err(error) => Err(error),
                            Ok(images) => Ok(PdiExtent { start_sector, end_sector, images }),
                        },
                    }
                },
            },
        },
    }
}

/// The sector at which a list of extents ends.
pub open spec fn end_of(extents: Seq<PdiExtent>) -> u64 {
    if extents.len() == 0 {
        0
    } else {
        extents.last().end_sector
    }
}

/// The extents that a list of elements describes, each of which starts where the one before it
/// ends.
pub open spec fn extents_in(parts: Seq<Seq<char>>) -> Result<Seq<PdiExtent>, DriverError>
    decreases parts.len(),
{
    if parts.len() == 0 {
        Ok(Seq::empty())
    } else {
        match extents_in(parts.drop_last()) {
            Err(error) => Err(error),
            Ok(extents) => match extent_in(parts.last(), end_of(extents)) {
                Err(error) => Err(error),
                Ok(extent) => Ok(extents.push(extent)),
            },
        }
    }
}

/// The extents of the disk.
pub open spec fn extents_of(text: Seq<char>) -> Result<Seq<PdiExtent>, DriverError> {
    match element(text, "StorageData"@) {
        Err(error) => Err(error),
        Ok(part) => match elements(part, "Storage"@) {
            Err(error) => Err(error),
            Ok(parts) => extents_in(parts),
        },
    }
}

/// What a descriptor says.
pub open spec fn descriptor_of(text: Seq<char>) -> Result<PdiDescriptor, DriverError> {
    if find_from(text, "<Parallels_disk_image"@, 0) is None {
        Err(DriverError::Unsupported)
    } else {
        match disk_size(text) {
            Err(error) => Err(error),
            Ok(media_size) => match snapshots_of(text) {
                Err(error) => Err(error),
                Ok(snapshots) => match extents_of(text) {
                    Err(error) => Err(error),
                    Ok(extents) => Ok(PdiDescriptor { media_size, snapshots, extents }),
                },
            },
        }
    }
}

/// An image file that stores an extent for a snapshot, as read from a descriptor.
pub struct ImageFileValues {
    pub file: String,
    pub is_compressed: bool,
    pub snapshot_identifier: Uuid,
}

impl ImageFileValues {
    /// What the image file is.
    pub open spec fn view(&self) -> PdiImageFile {
        PdiImageFile {
            file: self.file@,
            is_compressed: self.is_compressed,
            snapshot_identifier: self.snapshot_identifier,
        }
    }
}

/// An extent of the disk, as read from a descriptor.
pub struct ExtentValues {
    pub start_sector: u64,
    pub end_sector: u64,
    pub images: Vec<ImageFileValues>,
}

/// The image files of a list.
pub open spec fn images_view(images: Seq<ImageFileValues>) -> Seq<PdiImageFile> {
    Seq::new(images.len(), |i: int| images[i]@)
}

impl ExtentValues {
    /// What the extent is.
    pub open spec fn view(&self) -> PdiExtent {
        PdiExtent {
            start_sector: self.start_sector,
            end_sector: self.end_sector,
            images: images_view(self.images@),
        }
    }
}

/// The extents of a list.
pub open spec fn extents_view(extents: Seq<ExtentValues>) -> Seq<PdiExtent> {
    Seq::new(extents.len(), |i: int| extents[i]@)
}

/// What has been read from a descriptor.
pub struct DescriptorValues {
    pub media_size: u64,
    pub snapshots: Vec<PdiSnapshot>,
    pub extents: Vec<ExtentValues>,
}

impl DescriptorValues {
    /// What the descriptor says.
    pub open spec fn view(&self) -> PdiDescriptor {
        PdiDescriptor {
            media_size: self.media_size,
            snapshots: self.snapshots@,
            extents: extents_view(self.extents@),
        }
    }
}

fn make_open_mark(tag: &str) -> (mark: Vec<char>)
    ensures
        mark@ == open_mark(tag@),
        mark@.len() > 0,
{
    let chars: Vec<char> = text_chars(tag);
    let mut mark: Vec<char> = Vec::new();
    mark.push('<');
    append_text(&mut mark, chars.as_slice());
    mark.push('>');
    assert(mark@ =~= open_mark(tag@));
    mark
}

fn make_close_mark(tag: &str) -> (mark: Vec<char>)
    ensures
        mark@ == close_mark(tag@),
{
    let chars: Vec<char> = text_chars(tag);
    let mut mark: Vec<char> = Vec::new();
    mark.push('<');
    mark.push('/');
    append_text(&mut mark, chars.as_slice());
    mark.push('>');
    assert(mark@ =~= close_mark(tag@));
    mark
}

fn append_text(text: &mut Vec<char>, part: &[char])
    ensures
        final(text)@ == old(text)@ + part@,
{
    let mut index: usize = 0;
    let ghost before = text@;
    assert(before + part@.take(0) =~= before);
    while index < part.len()
        invariant
            index <= part@.len(),
            text@ == before + part@.take(index as int),
        decreases part@.len() - index,
    {
        text.push(part[index]);
        index += 1;
        assert(text@ =~= before + part@.take(index as int));
    }
    assert(part@.take(index as int) =~= part@);
}

fn find_element(text: &[char], tag: &str) -> (result: Result<Vec<char>, DriverError>)
    ensures
        match result {
            Ok(part) => element(text@, tag@) == Ok::<Seq<char>, DriverError>(part@),
            Err(error) => element(text@, tag@) == Err::<Seq<char>, DriverError>(error),
        },
{
    let open_mark: Vec<char> = make_open_mark(tag);
    let close_mark: Vec<char> = make_close_mark(tag);
    find_first_section(text, open_mark.as_slice(), close_mark.as_slice())
}

fn find_elements(text: &[char], tag: &str) -> (result: Result<Vec<Vec<char>>, DriverError>)
    ensures
        match result {
            Ok(parts) => elements(text@, tag@) == Ok::<Seq<Seq<char>>, DriverError>(
                texts_view(parts@),
            ),
            Err(error) => elements(text@, tag@) == Err::<Seq<Seq<char>>, DriverError>(error),
        },
{
    let open_mark: Vec<char> = make_open_mark(tag);
    let close_mark: Vec<char> = make_close_mark(tag);
    find_sections(text, open_mark.as_slice(), close_mark.as_slice())
}

fn read_number(text: &[char], tag: &str) -> (result: Result<u64, DriverError>)
    ensures
        result == element_number(text@, tag@),
{
    let part: Vec<char> = find_element(text, tag)?;
    match parse_number(trim_text(part.as_slice()), 10, u64::MAX) {
        Some(number) => Ok(number),
        None => Err(DriverError::Invalid),
    }
}

fn read_uuid(text: &[char], tag: &str) -> (result: Result<Uuid, DriverError>)
    ensures
        result == element_uuid(text@, tag@),
{
    let part: Vec<char> = find_element(text, tag)?;
    let string: String = chars_text(trim_text(part.as_slice()));
    Uuid::from_string(string.as_str())
}

fn parse_disk_parameters(text: &[char]) -> (result: Result<u64, DriverError>)
    ensures
        result == disk_size(text@),
{
    let parameters: Vec<char> = find_element(text, "Disk_Parameters")?;
    let parameters: &[char] = parameters.as_slice();
    let sectors: u64 = read_number(parameters, "Disk_size")?;
    let logical_sector_size: u64 = read_number(parameters, "LogicSectorSize")?;
    let physical_sector_size: u64 = read_number(parameters, "PhysicalSectorSize")?;
    let padding: u64 = read_number(parameters, "Padding")?;
    if logical_sector_size != 512 || physical_sector_size != 4096 || padding != 0 {
        return Err(DriverError::Unsupported);
    }
    sectors.checked_mul(512).ok_or(DriverError::Overflow)
}

fn parse_snapshot(text: &[char]) -> (result: Result<PdiSnapshot, DriverError>)
    ensures
        result == snapshot_in(text@),
{
    let identifier: Uuid = read_uuid(text, "GUID")?;
    let parent: Uuid = read_uuid(text, "ParentGUID")?;
    Ok(
        PdiSnapshot {
            identifier,
            parent_identifier: if parent.is_nil() {
                None
            } else {
                Some(parent)
            },
        },
    )
}

fn parse_snapshots(text: &[char]) -> (result: Result<Vec<PdiSnapshot>, DriverError>)
    ensures
        match result {
            Ok(snapshots) => snapshots_of(text@) == Ok::<Seq<PdiSnapshot>, DriverError>(
                snapshots@,
            ),
            Err(error) => snapshots_of(text@) == Err::<Seq<PdiSnapshot>, DriverError>(error),
        },
{
    let section: Vec<char> = find_element(text, "Snapshots")?;
    let parts: Vec<Vec<char>> = find_elements(section.as_slice(), "Shot")?;
    let ghost all = texts_view(parts@);
    let mut snapshots: Vec<PdiSnapshot> = Vec::new();
    let mut index: usize = 0;
    while index < parts.len()
        invariant
            index <= parts@.len(),
            all == texts_view(parts@),
            snapshots_of(text@) == snapshots_in(all),
            snapshots_in(all.take(index as int)) == Ok::<Seq<PdiSnapshot>, DriverError>(
                snapshots@,
            ),
        decreases parts@.len() - index,
    {
        let result = parse_snapshot(parts[index].as_slice());
        proof {
            assert(all.take(index + 1).drop_last() =~= all.take(index as int));
            assert(all.take(index + 1).last() == parts@[index as int]@);
            if result is Err {
                lemma_snapshots_error(all, index + 1);
            }
        }
        snapshots.push(result?);
        index += 1;
    }
    assert(all.take(index as int) =~= all);
    Ok(snapshots)
}

proof fn lemma_snapshots_error(parts: Seq<Seq<char>>, count: int)
    requires
        0 <= count <= parts.len(),
        snapshots_in(parts.take(count)) is Err,
    ensures
        snapshots_in(parts) == snapshots_in(parts.take(count)),
    decreases parts.len(),
{
    if count == parts.len() {
        assert(parts.take(count) =~= parts);
    } else {
        assert(parts.drop_last().take(count) =~= parts.take(count));
        lemma_snapshots_error(parts.drop_last(), count);
    }
}

fn parse_image(text: &[char]) -> (result: Result<ImageFileValues, DriverError>)
    ensures
        match result {
            Ok(image) => image_in(text@) == Ok::<PdiImageFile, DriverError>(image@),
            Err(error) => image_in(text@) == Err::<PdiImageFile, DriverError>(error),
        },
{
    let snapshot_identifier: Uuid = read_uuid(text, "GUID")?;
    let kind: Vec<char> = find_element(text, "Type")?;
    let kind: &[char] = trim_text(kind.as_slice());
    let is_compressed: bool = same_text(kind, text_chars("Compressed").as_slice());
    if !is_compressed && !same_text(kind, text_chars("Plain").as_slice()) {
        return Err(DriverError::Unsupported);
    }
    let file: Vec<char> = find_element(text, "File")?;
    let file: &[char] = trim_text(file.as_slice());
    if file.len() == 0 {
        return Err(DriverError::Missing);
    }
    Ok(ImageFileValues { file: chars_text(file), is_compressed, snapshot_identifier })
}

fn parse_images(parts: &Vec<Vec<char>>) -> (result: Result<Vec<ImageFileValues>, DriverError>)
    ensures
        match result {
            Ok(images) => images_in(texts_view(parts@)) == Ok::<Seq<PdiImageFile>, DriverError>(
                images_view(images@),
            ),
            Err(error) => images_in(texts_view(parts@)) == Err::<Seq<PdiImageFile>, DriverError>(
                error,
            ),
        },
{
    let ghost all = texts_view(parts@);
    let mut images: Vec<ImageFileValues> = Vec::new();
    let mut index: usize = 0;
    assert(images_view(images@) =~= Seq::<PdiImageFile>::empty());
    while index < parts.len()
        invariant
            index <= parts@.len(),
            all == texts_view(parts@),
            images_in(all.take(index as int)) == Ok::<Seq<PdiImageFile>, DriverError>(
                images_view(images@),
            ),
        decreases parts@.len() - index,
    {
        let result = parse_image(parts[index].as_slice());
        proof {
            assert(all.take(index + 1).drop_last() =~= all.take(index as int));
            assert(all.take(index + 1).last() == parts@[index as int]@);
            if result is Err {
                lemma_images_error(all, index + 1);
            }
        }
        let image = result?;
        let ghost before = images_view(images@);
        images.push(image);
        assert(images_view(images@) =~= before.push(image@));
        index += 1;
    }
    assert(all.take(index as int) =~= all);
    Ok(images)
}

proof fn lemma_images_error(parts: Seq<Seq<char>>, count: int)
    requires
        0 <= count <= parts.len(),
        images_in(parts.take(count)) is Err,
    ensures
        images_in(parts) == images_in(parts.take(count)),
    decreases parts.len(),
{
    if count == parts.len() {
        assert(parts.take(count) =~= parts);
    } else {
        assert(parts.drop_last().take(count) =~= parts.take(count));
        lemma_images_error(parts.drop_last(), count);
    }
}

fn parse_extent(text: &[char], start: u64) -> (result: Result<ExtentValues, DriverError>)
    ensures
        match result {
            Ok(extent) => extent_in(text@, start) == Ok::<PdiExtent, DriverError>(extent@),
            Err(error) => extent_in(text@, start) == Err::<PdiExtent, DriverError>(error),
        },
{
    let start_sector: u64 = read_number(text, "Start")?;
    let end_sector: u64 = read_number(text, "End")?;
    let block_size: u64 = read_number(text, "Blocksize")?;
    if block_size != 2048 {
        return Err(DriverError::Unsupported);
    }
    if start_sector >= end_sector || start_sector != start {
        return Err(DriverError::Invalid);
    }
    let parts: Vec<Vec<char>> = find_elements(text, "Image")?;
    let images: Vec<ImageFileValues> = parse_images(&parts)?;
    Ok(ExtentValues { start_sector, end_sector, images })
}

fn parse_storage_data(text: &[char]) -> (result: Result<Vec<ExtentValues>, DriverError>)
    ensures
        match result {
            Ok(extents) => extents_of(text@) == Ok::<Seq<PdiExtent>, DriverError>(
                extents_view(extents@),
            ),
            Err(error) => extents_of(text@) == Err::<Seq<PdiExtent>, DriverError>(error),
        },
{
    let section: Vec<char> = find_element(text, "StorageData")?;
    let parts: Vec<Vec<char>> = find_elements(section.as_slice(), "Storage")?;
    let ghost all = texts_view(parts@);
    let mut extents: Vec<ExtentValues> = Vec::new();
    let mut index: usize = 0;
    let mut end_sector: u64 = 0;
    assert(extents_view(extents@) =~= Seq::<PdiExtent>::empty());
    while index < parts.len()
        invariant
            index <= parts@.len(),
            all == texts_view(parts@),
            extents_of(text@) == extents_in(all),
            extents_in(all.take(index as int)) == Ok::<Seq<PdiExtent>, DriverError>(
                extents_view(extents@),
            ),
            end_sector == end_of(extents_view(extents@)),
        decreases parts@.len() - index,
    {
        let result = parse_extent(parts[index].as_slice(), end_sector);
        proof {
            assert(all.take(index + 1).drop_last() =~= all.take(index as int));
            assert(all.take(index + 1).last() == parts@[index as int]@);
            if result is Err {
                lemma_extents_error(all, index + 1);
            }
        }
        let extent = result?;
        end_sector = extent.end_sector;
        let ghost before = extents_view(extents@);
        extents.push(extent);
        assert(extents_view(extents@) =~= before.push(extent@));
        index += 1;
    }
    assert(all.take(index as int) =~= all);
    Ok(extents)
}

proof fn lemma_extents_error(parts: Seq<Seq<char>>, count: int)
    requires
        0 <= count <= parts.len(),
        extents_in(parts.take(count)) is Err,
    ensures
        extents_in(parts) == extents_in(parts.take(count)),
    decreases parts.len(),
{
    if count == parts.len() {
        assert(parts.take(count) =~= parts);
    } else {
        assert(parts.drop_last().take(count) =~= parts.take(count));
        lemma_extents_error(parts.drop_last(), count);
    }
}

/// The extents of a descriptor make up the disk: each starts where the one before it ends, and
/// none is empty.
pub proof fn lemma_extents_contiguous(parts: Seq<Seq<char>>, index: int)
    requires
        extents_in(parts) is Ok,
        0 <= index < extents_in(parts)->Ok_0.len(),
    ensures
        extents_in(parts)->Ok_0[index].start_sector < extents_in(parts)->Ok_0[index].end_sector,
        extents_in(parts)->Ok_0[index].start_sector == (if index == 0 {
            0
        } else {
            extents_in(parts)->Ok_0[index - 1].end_sector
        }),
    decreases parts.len(),
{
    if parts.len() > 0 {
        let front = extents_in(parts.drop_last())->Ok_0;
        if index < front.len() {
            lemma_extents_contiguous(parts.drop_last(), index);
        }
    }
}

/// Parses a descriptor.
pub fn parse_descriptor(text: &[char]) -> (result: Result<DescriptorValues, DriverError>)
    ensures
        match result {
            Ok(descriptor) => descriptor_of(text@) == Ok::<PdiDescriptor, DriverError>(
                descriptor@,
            ),
            Err(error) => descriptor_of(text@) == Err::<PdiDescriptor, DriverError>(error),
        },
{
    let root: Vec<char> = text_chars("<Parallels_disk_image");
    if find_pattern(text, root.as_slice(), 0).is_none() {
        return Err(DriverError::Unsupported);
    }
    let media_size: u64 = parse_disk_parameters(text)?;
    let snapshots: Vec<PdiSnapshot> = parse_snapshots(text)?;
    let extents: Vec<ExtentValues> = parse_storage_data(text)?;
    Ok(DescriptorValues { media_size, snapshots, extents })
}

} // verus!
