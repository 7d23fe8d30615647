//! Mac OS sparse disk images (.sparseimage).

use vstd::prelude::*;

use super::block_map::is_medium;
use super::block_table::{
    block_failure, block_location, build_block_map, lemma_block_byte, lemma_block_count,
    lemma_blocks_readable, lemma_number_of_blocks, number_of_blocks, BlockTable,
};
use crate::bytes::{holds_be, lemma_holds_be, read_u32_be, u32_be};
use crate::checks::{first_failure, lemma_first_failure_at, lemma_first_failure_none};
use crate::error::DriverError;
use crate::source::data_source::{read_bytes, Content, DataSource, DataSourceReference};
use crate::source::extent_map::MediaLocation;

verus! {

/// What is known of an opened image.
pub struct SparseImage {
    pub band_size: u32,
    pub media_size: u64,
    pub band_numbers: Seq<u32>,
}

/// The number of bands of a medium.
pub open spec fn number_of_bands(header: Seq<u8>) -> nat {
    number_of_blocks(u32_be(header, 16) as int, u32_be(header, 8) as int)
}

/// The number of the band that is stored in a slot, or zero if the slot is not used.
pub open spec fn slot_number(header: Seq<u8>, slot: int) -> u32 {
    u32_be(header, 64 + 4 * slot)
}

/// The numbers of the bands in the order in which they are stored.
pub open spec fn band_numbers_in(header: Seq<u8>) -> Seq<u32> {
    Seq::new(number_of_bands(header), |i: int| slot_number(header, i))
}

/// The size of a band, the last of which ends with the medium.
pub open spec fn used_band_size(band_size: int, media_size: int, number: int) -> int {
    if number * band_size < media_size {
        band_size
    } else {
        media_size - (number - 1) * band_size
    }
}

/// The file offset of a slot.
pub open spec fn slot_offset(band_size: int, slot: int) -> int {
    4096 + slot * band_size
}

/// Why a slot cannot be used: its band number is too large or that of an earlier slot, or its data
/// does not lie in the file.
pub open spec fn slot_failure(
    numbers: Seq<u32>,
    band_size: int,
    media_size: int,
    source_size: int,
) -> spec_fn(int) -> Option<DriverError> {
    |slot: int|
        if numbers[slot] == 0 {
            None
        } else if numbers[slot] > numbers.len() {
            Some(DriverError::OutOfBounds)
        } else if numbers.take(slot).contains(numbers[slot]) {
            Some(DriverError::Invalid)
        } else if slot_offset(band_size, slot) + used_band_size(
            band_size,
            media_size,
            numbers[slot] as int,
        ) > source_size {
            Some(DriverError::OutOfBounds)
        } else {
            None
        }
}

/// What is known of an image that can be opened. Its header has the signature "sprs".
pub open spec fn image_of(content: Content) -> Result<SparseImage, DriverError> {
    match content.exact(0, 4096) {
        Err(error) => Err(error),
        Ok(header) => if u32_be(header, 0) != 0x7370_7273 {
            Err(DriverError::Unsupported)
        } else if u32_be(header, 8) == 0 {
            Err(DriverError::Invalid)
        } else if u32_be(header, 8) * 512 > u32::MAX {
            Err(DriverError::Overflow)
        } else if number_of_bands(header) > 1008 {
            Err(DriverError::OutOfBounds)
        } else {
            let band_size = u32_be(header, 8) * 512;
            let media_size = u32_be(header, 16) * 512;
            let numbers = band_numbers_in(header);
            match first_failure(
                numbers.len(),
                slot_failure(numbers, band_size, media_size, content.size as int),
            ) {
                Some(error) => Err(error),
                None => Ok(
                    SparseImage {
                        band_size: band_size as u32,
                        media_size: media_size as u64,
                        band_numbers: numbers,
                    },
                ),
            }
        },
    }
}

/// The first slot that holds the band with a number.
pub open spec fn find_slot(numbers: Seq<u32>, number: int) -> Option<int>
    decreases numbers.len(),
{
    if numbers.len() == 0 {
        None
    } else {
        match find_slot(numbers.drop_last(), number) {
            Some(slot) => Some(slot),
            None => if numbers.last() == number {
                Some(numbers.len() - 1)
            } else {
                None
            },
        }
    }
}

/// The file offsets of the bands, in the order in which they make up the medium.
pub open spec fn band_offsets(image: SparseImage) -> spec_fn(int) -> Result<
    Option<u64>,
    DriverError,
> {
    |index: int|
        match find_slot(image.band_numbers, index + 1) {
            Some(slot) => Ok(Some(slot_offset(image.band_size as int, slot) as u64)),
            None => Ok(None),
        }
}

/// Where an image stores the byte of the medium at an offset: in the slot that holds its band.
pub open spec fn media_location(source: DataSourceReference, image: SparseImage) -> spec_fn(
    int,
) -> MediaLocation {
    block_location(source, None, image.band_size as int, band_offsets(image))
}

/// Determines the first slot that holds the band with a number.
fn search_slot(numbers: &[u32], number: u64) -> (slot: Option<usize>)
    ensures
        match slot {
            Some(slot) => find_slot(numbers@, number as int) == Some(slot as int) && slot
                < numbers@.len(),
            None => find_slot(numbers@, number as int) is None,
        },
{
    let mut slot: usize = 0;
    while slot < numbers.len()
        invariant
            slot <= numbers@.len(),
            find_slot(numbers@.take(slot as int), number as int) is None,
        decreases numbers@.len() - slot,
    {
        assert(numbers@.take(slot + 1).drop_last() =~= numbers@.take(slot as int));
        if numbers[slot] as u64 == number {
            proof {
                lemma_find_slot_prefix(numbers@, slot + 1, number as int);
            }
            return Some(slot);
        }
        slot += 1;
    }
    assert(numbers@.take(slot as int) =~= numbers@);
    None
}

proof fn lemma_find_slot_prefix(numbers: Seq<u32>, count: int, number: int)
    requires
        0 <= count <= numbers.len(),
        find_slot(numbers.take(count), number) is Some,
    ensures
        find_slot(numbers, number) == find_slot(numbers.take(count), number),
    decreases numbers.len(),
{
    if count == numbers.len() {
        assert(numbers.take(count) =~= numbers);
    } else {
        assert(numbers.drop_last().take(count) =~= numbers.take(count));
        lemma_find_slot_prefix(numbers.drop_last(), count, number);
    }
}

proof fn lemma_find_slot(numbers: Seq<u32>, number: int)
    ensures
        match find_slot(numbers, number) {
            Some(slot) => 0 <= slot < numbers.len() && numbers[slot] == number,
            None => forall|i: int| 0 <= i < numbers.len() ==> numbers[i] != number,
        },
    decreases numbers.len(),
{
    if numbers.len() > 0 {
        lemma_find_slot(numbers.drop_last(), number);
        if find_slot(numbers, number) is None {
            assert forall|i: int| 0 <= i < numbers.len() implies numbers[i] != number by {
                if i < numbers.len() - 1 {
                    assert(numbers.drop_last()[i] == numbers[i]);
                }
            }
        }
    }
}

/// Each band that an image stores is stored in exactly one slot, and the medium is read from it.
pub proof fn lemma_bands_stored_once(content: Content, slot: int)
    requires
        image_of(content) is Ok,
        0 <= slot < image_of(content)->Ok_0.band_numbers.len(),
        image_of(content)->Ok_0.band_numbers[slot] != 0,
    ensures
        find_slot(
            image_of(content)->Ok_0.band_numbers,
            image_of(content)->Ok_0.band_numbers[slot] as int,
        ) == Some(slot),
{
    let image = image_of(content)->Ok_0;
    let numbers = image.band_numbers;
    let failure = slot_failure(
        numbers,
        image.band_size as int,
        image.media_size as int,
        content.size as int,
    );
    lemma_first_failure_none(numbers.len(), failure);
    lemma_find_slot(numbers, numbers[slot] as int);
    assert(failure(slot) is None);
    match find_slot(numbers, numbers[slot] as int) {
        Some(found) => {
            assert(failure(found) is None);
            if found < slot {
                assert(numbers.take(slot)[found] == numbers[slot]);
            } else if slot < found {
                assert(numbers.take(found)[slot] == numbers[found]);
            }
        },
        None => {},
    }
}

/// Whether the header of an image is stored: behind the characters "sprs", in big-endian order, the
/// number of sectors of a band, the number of sectors of the medium and, from offset 64 on, the number
/// of the band in each slot.
pub open spec fn holds_header(
    content: Content,
    sectors_per_band: int,
    number_of_sectors: int,
    numbers: Seq<u32>,
) -> bool {
    let data = content.window(0, 4096);
    &&& content.has(0, 4096)
    &&& data[0] == 0x73 && data[1] == 0x70 && data[2] == 0x72 && data[3] == 0x73
    &&& holds_be(data, 8, 4, sectors_per_band)
    &&& holds_be(data, 16, 4, number_of_sectors)
    &&& forall|i: int|
        0 <= i < numbers.len() ==> holds_be(data, 64 + 4 * i, 4, #[trigger] numbers[i] as int)
}

/// The values of an image that is stored are read back. It has as many slots as bands are needed for
/// its sectors, and each band that is stored is in one of them, which lies in the file.
pub proof fn lemma_image_stored(
    content: Content,
    sectors_per_band: int,
    number_of_sectors: int,
    numbers: Seq<u32>,
)
    requires
        holds_header(content, sectors_per_band, number_of_sectors, numbers),
        0 < sectors_per_band * 512 <= u32::MAX,
        0 < number_of_sectors <= u32::MAX,
        numbers.len() <= 1008,
        (numbers.len() - 1) * sectors_per_band < number_of_sectors <= numbers.len()
            * sectors_per_band,
        forall|i: int| 0 <= i < numbers.len() ==> #[trigger] numbers[i] <= numbers.len(),
        forall|i: int, j: int|
            0 <= i < j < numbers.len() && numbers[i] != 0 ==> #[trigger] numbers[i]
                != #[trigger] numbers[j],
        4096 + numbers.len() * (sectors_per_band * 512) <= content.size,
    ensures
        image_of(content) == Ok::<SparseImage, DriverError>(
            SparseImage {
                band_size: (sectors_per_band * 512) as u32,
                media_size: (number_of_sectors * 512) as u64,
                band_numbers: numbers,
            },
        ),
{
    broadcast use lemma_holds_be;

    let header = content.window(0, 4096);
    assert(u32_be(header, 0) == 0x7370_7273);
    let count = numbers.len() as int;
    assert(0 < count) by (nonlinear_arith)
        requires
            0 < number_of_sectors <= count * sectors_per_band,
            0 < sectors_per_band,
            0 <= count,
    ;
    lemma_number_of_blocks(number_of_sectors, sectors_per_band, count - 1);
    assert(number_of_bands(header) == count);
    assert forall|i: int| 0 <= i < count implies #[trigger] band_numbers_in(header)[i]
        == numbers[i] by {
        assert(holds_be(header, 64 + 4 * i, 4, numbers[i] as int));
    }
    assert(band_numbers_in(header) =~= numbers);
    let band_size = sectors_per_band * 512;
    let media_size = number_of_sectors * 512;
    let failure = slot_failure(numbers, band_size, media_size, content.size as int);
    assert forall|i: int| 0 <= i < count implies #[trigger] failure(i) is None by {
        assert(numbers[i] <= count);
        if numbers[i] != 0 {
            assert(!numbers.take(i).contains(numbers[i])) by {
                if numbers.take(i).contains(numbers[i]) {
                    let j = choose|j: int|
                        0 <= j < numbers.take(i).len() && numbers.take(i)[j] == numbers[i];
                    assert(numbers[j] == numbers[i]);
                }
            }
            let number = numbers[i] as int;
            assert(used_band_size(band_size, media_size, number) <= band_size) by {
                assert(number * band_size == (number - 1) * band_size + band_size)
                    by (nonlinear_arith);
            }
            assert(i * band_size + band_size <= count * band_size) by (nonlinear_arith)
                requires
                    i + 1 <= count,
                    0 < band_size,
            ;
        }
    }
    lemma_first_failure_none(numbers.len(), failure);
}

/// The bytes of the band with a number that a slot stores lie in the slot: behind the header and the
/// slots before it, which are as large as a band each. The first band has the number one.
pub proof fn lemma_band_byte(
    source: DataSourceReference,
    image: SparseImage,
    slot: int,
    relative_offset: int,
)
    requires
        0 <= slot < image.band_numbers.len() <= 1008,
        0 < image.band_numbers[slot],
        forall|i: int|
            0 <= i < image.band_numbers.len() && i != slot ==> #[trigger] image.band_numbers[i]
                != image.band_numbers[slot],
        0 <= relative_offset < image.band_size,
    ensures
        media_location(source, image)(
            (image.band_numbers[slot] - 1) * image.band_size + relative_offset,
        ) == (MediaLocation::Data {
            source,
            offset: 4096 + slot * image.band_size + relative_offset,
        }),
{
    let number = image.band_numbers[slot] as int;
    lemma_find_slot(image.band_numbers, number);
    assert(find_slot(image.band_numbers, number) == Some(slot));
    assert(0 <= slot * image.band_size <= 1008 * 0xffff_ffff) by (nonlinear_arith)
        requires
            0 <= slot <= 1008,
            0 <= image.band_size <= 0xffff_ffff,
    ;
    lemma_block_byte(
        source,
        None,
        image.band_size as int,
        band_offsets(image),
        number - 1,
        relative_offset,
    );
}

/// The bytes of a band that no slot stores are zero.
pub proof fn lemma_absent_band_byte(
    source: DataSourceReference,
    image: SparseImage,
    number: int,
    relative_offset: int,
)
    requires
        0 < number,
        forall|i: int|
            0 <= i < image.band_numbers.len() ==> #[trigger] image.band_numbers[i] != number,
        0 <= relative_offset < image.band_size,
    ensures
        media_location(source, image)((number - 1) * image.band_size + relative_offset)
            == MediaLocation::Zero,
{
    lemma_find_slot(image.band_numbers, number);
    lemma_block_byte(
        source,
        None,
        image.band_size as int,
        band_offsets(image),
        number - 1,
        relative_offset,
    );
}

/// The bands of an image.
struct BandTable<'a> {
    band_size: u32,
    band_numbers: &'a Vec<u32>,
    image: Ghost<SparseImage>,
}

impl<'a> BandTable<'a> {
    #[verifier::type_invariant]
    spec fn well_formed(self) -> bool {
        &&& self.image@.band_size == self.band_size
        &&& self.image@.band_numbers == self.band_numbers@
        &&& self.band_numbers@.len() <= 1008
    }
}

impl<'a> BlockTable for BandTable<'a> {
    closed spec fn block(&self, index: int) -> Result<Option<u64>, DriverError> {
        band_offsets(self.image@)(index)
    }

    closed spec fn reliable(&self) -> bool {
        true
    }

    fn locate(&self, index: u64) -> (result: Result<Option<u64>, DriverError>) {
        proof {
            use_type_invariant(self);
        }
        if index >= 1008 {
            proof {
                lemma_find_slot(self.image@.band_numbers, index + 1);
            }
        }
        if index == u64::MAX {
            return Ok(None);
        }
        match search_slot(self.band_numbers.as_slice(), index + 1) {
            Some(slot) => {
                proof {
                    assert(0 <= slot * self.band_size <= 1008 * 0xffff_ffff) by (nonlinear_arith)
                        requires
                            0 <= slot <= 1008,
                            0 <= self.band_size <= 0xffff_ffff,
                    ;
                }
                Ok(Some(4096 + slot as u64 * self.band_size as u64))
            },
            None => Ok(None),
        }
    }
}

/// Reads the numbers of the bands and checks them.
fn read_band_numbers(
    header: &[u8],
    band_size: u32,
    media_size: u64,
    source_size: u64,
    count: u32,
) -> (result: Result<Vec<u32>, DriverError>)
    requires
        header@.len() == 4096,
        count == number_of_bands(header@),
        count <= 1008,
        media_size == u32_be(header@, 16) * 512,
        band_size == u32_be(header@, 8) * 512,
        0 < band_size,
    ensures
        match result {
            Ok(numbers) => {
                &&& numbers@ == band_numbers_in(header@)
                &&& first_failure(
                    numbers@.len(),
                    slot_failure(
                        numbers@,
                        band_size as int,
                        media_size as int,
                        source_size as int,
                    ),
                ) is None
            },
            Err(error) => first_failure(
                band_numbers_in(header@).len(),
                slot_failure(
                    band_numbers_in(header@),
                    band_size as int,
                    media_size as int,
                    source_size as int,
                ),
            ) == Some(error),
        },
{
    let ghost all = band_numbers_in(header@);
    let ghost failure = slot_failure(
        all,
        band_size as int,
        media_size as int,
        source_size as int,
    );
    let mut numbers: Vec<u32> = Vec::new();
    let mut slot: u32 = 0;
    while slot < count
        invariant
            header@.len() == 4096,
            slot <= count <= 1008,
            all == band_numbers_in(header@),
            all.len() == count,
            numbers@ == all.take(slot as int),
            count == number_of_bands(header@),
            media_size == u32_be(header@, 16) * 512,
            band_size == u32_be(header@, 8) * 512,
            0 < band_size,
            failure == slot_failure(
                all,
                band_size as int,
                media_size as int,
                source_size as int,
            ),
            first_failure(slot as nat, failure) is None,
        decreases count - slot,
    {
        let number: u32 = read_u32_be(header, 64 + 4 * slot as usize);
        proof {
            assert(all[slot as int] == number);
            if failure(slot as int) is Some {
                lemma_first_failure_at(count as nat, failure, slot as nat);
            }
        }
        if number != 0 {
            if number > count {
                return Err(DriverError::OutOfBounds);
            }
            if search_slot(numbers.as_slice(), number as u64).is_some() {
                proof {
                    lemma_find_slot(numbers@, number as int);
                    let found = find_slot(numbers@, number as int)->0;
                    assert(all.take(slot as int)[found] == number);
                }
                return Err(DriverError::Invalid);
            }
            proof {
                lemma_find_slot(numbers@, number as int);
                let sectors = u32_be(header@, 16) as int;
                let spb = u32_be(header@, 8) as int;
                lemma_block_count(sectors, spb, number - 1);
                assert((number - 1) * (spb * 512) == (number - 1) * spb * 512 && number * (spb
                    * 512) == (number - 1) * (spb * 512) + spb * 512) by (nonlinear_arith);
                assert(0 <= (number - 1) * band_size && 0 <= slot * band_size <= 1008 * 0xffff_ffff)
                    by (nonlinear_arith)
                    requires
                        1 <= number,
                        0 <= slot <= 1008,
                        0 < band_size <= 0xffff_ffff,
                ;
            }
            let logical_offset: u64 = (number as u64 - 1) * band_size as u64;
            let remaining_size: u64 = media_size - logical_offset;
            let logical_size: u64 = if (band_size as u64) < remaining_size {
                band_size as u64
            } else {
                remaining_size
            };
            let physical_offset: u64 = 4096 + slot as u64 * band_size as u64;
            if physical_offset + logical_size > source_size {
                return Err(DriverError::OutOfBounds);
            }
        }
        assert(all.take(slot + 1) =~= all.take(slot as int).push(number));
        numbers.push(number);
        slot = slot + 1;
    }
    assert(all.take(count as int) =~= all);
    Ok(numbers)
}

/// Sparseimage metadata plus the underlying source.
pub struct SparseImageFile {
    source: DataSourceReference,
    band_size: u32,
    band_numbers: Vec<u32>,
    media_size: u64,
}

impl SparseImageFile {
    #[verifier::type_invariant]
    spec fn well_formed(self) -> bool {
        &&& 0 < self.band_size
        &&& self.band_numbers@.len() <= 1008
    }

    /// What is known of the image.
    pub closed spec fn view(&self) -> SparseImage {
        SparseImage {
            band_size: self.band_size,
            media_size: self.media_size,
            band_numbers: self.band_numbers@,
        }
    }

    /// The underlying source.
    pub closed spec fn source(&self) -> DataSourceReference {
        self.source
    }

    /// Opens and parses a sparseimage file.
    pub fn open(source: DataSourceReference) -> (result: Result<Self, DriverError>)
        ensures
            match result {
                Ok(file) => {
                    &&& image_of(source.content()) == Ok::<SparseImage, DriverError>(file@)
                    &&& file.source() == source
                },
                Err(error) => source.reliable() ==> image_of(source.content()) == Err::<
                    SparseImage,
                    DriverError,
                >(error),
            },
    {
        let source_size: u64 = source.size()?;
        let header: Vec<u8> = read_bytes(&source, 0, 4096)?;
        let header = header.as_slice();

        if read_u32_be(header, 0) != 0x7370_7273 {
            return Err(DriverError::Unsupported);
        }
        let sectors_per_band: u32 = read_u32_be(header, 8);
        let number_of_sectors: u32 = read_u32_be(header, 16);
        if sectors_per_band == 0 {
            return Err(DriverError::Invalid);
        }
        let band_size: u32 = sectors_per_band.checked_mul(512).ok_or(DriverError::Overflow)?;
        let media_size: u64 = number_of_sectors as u64 * 512;
        let count: u64 = (number_of_sectors as u64 + (sectors_per_band as u64 - 1))
            / sectors_per_band as u64;
        if count > 1008 {
            return Err(DriverError::OutOfBounds);
        }
        let band_numbers: Vec<u32> = read_band_numbers(
            header,
            band_size,
            media_size,
            source_size,
            count as u32,
        )?;
        Ok(SparseImageFile { source, band_size, band_numbers, media_size })
    }

    /// Retrieves the bytes-per-sector value.
    pub fn bytes_per_sector(&self) -> (bytes_per_sector: u16)
        ensures
            bytes_per_sector == 512,
    {
        512
    }

    /// Retrieves the band size in bytes.
    pub fn band_size(&self) -> (band_size: u32)
        ensures
            band_size == self@.band_size,
    {
        self.band_size
    }

    /// Retrieves the media size in bytes.
    pub fn media_size(&self) -> (media_size: u64)
        ensures
            media_size == self@.media_size,
    {
        self.media_size
    }

    /// Retrieves the number of logical bands described by the header.
    pub fn number_of_bands(&self) -> (number_of_bands: usize)
        ensures
            number_of_bands == self@.band_numbers.len(),
    {
        self.band_numbers.len()
    }

    /// Retrieves the logical band numbers listed in the header, in physical storage order.
    pub fn band_numbers(&self) -> (band_numbers: &[u32])
        ensures
            band_numbers@ == self@.band_numbers,
    {
        self.band_numbers.as_slice()
    }

    /// Opens the logical media source backed by sparseimage band mappings.
    pub fn open_source(&self) -> (result: Result<DataSourceReference, DriverError>)
        ensures
            result is Ok,
            is_medium(
                result->Ok_0,
                self.source(),
                self@.media_size as nat,
                media_location(self.source(), self@),
            ),
            self.source().reliable() ==> result->Ok_0.reliable(),
    {
        proof {
            use_type_invariant(self);
        }
        let ghost offsets = band_offsets(self@);
        let table = BandTable {
            band_size: self.band_size,
            band_numbers: &self.band_numbers,
            image: Ghost(self@),
        };
        proof {
            let count = number_of_blocks(self.media_size as int, self.band_size as int);
            assert forall|i: int| 0 <= i < count implies #[trigger] block_failure(offsets)(
                i,
            ) is None by {
                assert(offsets(i) is Ok);
            }
            lemma_first_failure_none(count, block_failure(offsets));
            assert forall|i: int|
                match #[trigger] offsets(i) {
                    Ok(Some(offset)) => offset + self.band_size <= u64::MAX,
                    _ => true,
                } by {
                lemma_find_slot(self.band_numbers@, i + 1);
                if let Some(slot) = find_slot(self.band_numbers@, i + 1) {
                    assert(0 <= slot * self.band_size <= 1008 * 0xffff_ffff) by (nonlinear_arith)
                        requires
                            0 <= slot <= 1008,
                            0 <= self.band_size <= 0xffff_ffff,
                    ;
                }
            }
            lemma_blocks_readable(
                self.source,
                None,
                self.band_size as int,
                offsets,
                self.media_size,
            );
        }
        let map = build_block_map(
            &table,
            &self.source,
            &None,
            self.band_size as u64,
            self.media_size,
            Ghost(offsets),
        )?;
        Ok(map.into_source(Ghost(media_location(self.source, self@))))
    }
}

} // verus!
