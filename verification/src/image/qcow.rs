//! QEMU copy-on-write (QCOW) images.

use vstd::arithmetic::power2::{lemma2_to64, lemma_pow2_strictly_increases, pow2};
use vstd::bits::{lemma_u64_pow2_no_overflow, lemma_u64_shl_is_mul};
use vstd::prelude::*;

use super::block_map::is_medium;
use super::block_table::{
    block_failure, block_location, build_block_map, lemma_block_byte, lemma_blocks_readable,
    number_of_blocks, BlockTable,
};
use crate::bytes::{lemma_holds_be, read_u32_be, read_u64_be, u32_be, u64_be};
use crate::checks::first_failure;
use crate::error::DriverError;
use crate::source::data_source::{
    lemma_holds_in, read_bytes, Content, DataSource, DataSourceReference,
};
use crate::source::extent_map::MediaLocation;

verus! {

/// QCOW compression method.
#[derive(Clone, Copy, Debug, PartialEq, Eq, PartialOrd, Ord, Hash, Structural)]
pub enum QcowCompressionMethod {
    Zlib,
}

/// QCOW encryption method.
#[derive(Clone, Copy, Debug, PartialEq, Eq, PartialOrd, Ord, Hash, Structural)]
pub enum QcowEncryptionMethod {
    Unencrypted,
}

/// QCOW file header.
pub struct QcowFileHeader {
    pub format_version: u32,
    pub header_size: u32,
    pub level1_table_number_of_references: u32,
    pub level1_table_offset: u64,
    pub number_of_cluster_block_bits: u32,
    pub media_size: u64,
    pub compression_method: QcowCompressionMethod,
    pub encryption_method: QcowEncryptionMethod,
    pub backing_file_name_offset: u64,
    pub backing_file_name_size: u32,
    pub number_of_snapshots: u32,
    pub snapshots_offset: u64,
}

/// Whether the file header is one that can be read: it has the signature "QFI\xfb", is of format
/// version 3, sets no feature flag but the first, has between 9 and 63 cluster block bits and a
/// known size, and names compression method and encryption method zero.
pub open spec fn is_supported_header(data: Seq<u8>) -> bool {
    &&& u32_be(data, 0) == 0x5146_49fb
    &&& u32_be(data, 4) == 3
    &&& u64_be(data, 72) <= 1
    &&& u64_be(data, 80) <= 1
    &&& 8 < u32_be(data, 20) <= 63
    &&& u32_be(data, 100) == 104 || u32_be(data, 100) == 112
    &&& data[104] == 0
    &&& u32_be(data, 32) == 0
}

/// The values of a supported file header.
pub open spec fn header_values(data: Seq<u8>) -> QcowFileHeader {
    QcowFileHeader {
        format_version: u32_be(data, 4),
        header_size: u32_be(data, 100),
        level1_table_number_of_references: u32_be(data, 36),
        level1_table_offset: u64_be(data, 40),
        number_of_cluster_block_bits: u32_be(data, 20),
        media_size: u64_be(data, 24),
        compression_method: QcowCompressionMethod::Zlib,
        encryption_method: QcowEncryptionMethod::Unencrypted,
        backing_file_name_offset: u64_be(data, 8),
        backing_file_name_size: u32_be(data, 16),
        number_of_snapshots: u32_be(data, 60),
        snapshots_offset: u64_be(data, 64),
    }
}

/// The file header of an image.
pub open spec fn header_of(content: Content) -> Result<QcowFileHeader, DriverError> {
    match content.exact(0, 112) {
        Err(error) => Err(error),
        Ok(data) => if is_supported_header(data) {
            Ok(header_values(data))
        } else {
            Err(DriverError::Unsupported)
        },
    }
}

/// The size of a cluster.
pub open spec fn cluster_size(header: QcowFileHeader) -> int {
    pow2(header.number_of_cluster_block_bits as nat) as int
}

/// The entry of a table of 64-bit big-endian values.
pub open spec fn table_entry(content: Content, table_offset: int, index: int) -> Result<
    u64,
    DriverError,
> {
    if table_offset + index * 8 > u64::MAX {
        Err(DriverError::Overflow)
    } else {
        match content.exact(table_offset + index * 8, 8) {
            Err(error) => Err(error),
            Ok(data) => Ok(u64_be(data, 0)),
        }
    }
}

/// The offset in a table entry: its lower 62 bits.
pub open spec fn entry_offset(entry: u64) -> u64 {
    entry % 0x4000_0000_0000_0000
}

/// Whether a level 2 table entry is that of a compressed cluster, as its bit 62 says.
pub open spec fn is_compressed(entry: u64) -> bool {
    (entry / 0x4000_0000_0000_0000) % 2 == 1
}

/// The file offset of a cluster, if the cluster is stored.
///
/// A level 2 table fills one cluster. The level 1 table has an entry for each level 2 table.
pub open spec fn cluster_offset(content: Content, header: QcowFileHeader, index: int) -> Result<
    Option<u64>,
    DriverError,
> {
    let table_length = cluster_size(header) / 8;
    if index / table_length >= header.level1_table_number_of_references {
        Err(DriverError::OutOfBounds)
    } else {
        match table_entry(content, header.level1_table_offset as int, index / table_length) {
            Err(error) => Err(error),
            Ok(level1_entry) => if entry_offset(level1_entry) == 0 {
                Ok(None)
            } else {
                match table_entry(
                    content,
                    entry_offset(level1_entry) as int,
                    index % table_length,
                ) {
                    Err(error) => Err(error),
                    Ok(level2_entry) => if entry_offset(level2_entry) == 0 {
                        Ok(None)
                    } else if is_compressed(level2_entry) {
                        Err(DriverError::Unsupported)
                    } else if entry_offset(level2_entry) + cluster_size(header) > u64::MAX {
                        Err(DriverError::Overflow)
                    } else if entry_offset(level2_entry) + cluster_size(header) > content.size {
                        Err(DriverError::OutOfBounds)
                    } else {
                        Ok(Some(entry_offset(level2_entry)))
                    },
                }
            },
        }
    }
}

/// The file offsets of the clusters.
pub open spec fn cluster_offsets(content: Content, header: QcowFileHeader) -> spec_fn(
    int,
) -> Result<Option<u64>, DriverError> {
    |index: int| cluster_offset(content, header, index)
}

/// The file header of an image that can be opened: one without a backing file and snapshots, all
/// clusters of which can be located.
pub open spec fn image_of(content: Content) -> Result<QcowFileHeader, DriverError> {
    match header_of(content) {
        Err(error) => Err(error),
        Ok(header) => if header.backing_file_name_offset > 0 || header.backing_file_name_size > 0
            || header.number_of_snapshots != 0 || header.snapshots_offset != 0 {
            Err(DriverError::Unsupported)
        } else {
            match first_failure(
                number_of_blocks(header.media_size as int, cluster_size(header)),
                block_failure(cluster_offsets(content, header)),
            ) {
                Some(error) => Err(error),
                None => Ok(header),
            }
        },
    }
}

/// Where an image stores the byte of the medium at an offset: in the cluster that covers it.
pub open spec fn media_location(source: DataSourceReference, header: QcowFileHeader) -> spec_fn(
    int,
) -> MediaLocation {
    block_location(
        source,
        None,
        cluster_size(header),
        cluster_offsets(source.content(), header),
    )
}

/// Whether the file header of an image is stored: its values in big-endian order, behind the
/// characters "QFI" and 0xfb.
pub open spec fn holds_header(content: Content, header: QcowFileHeader) -> bool {
    &&& content.has(0, 112)
    &&& content.bytes[0] == 0x51 && content.bytes[1] == 0x46 && content.bytes[2] == 0x49
        && content.bytes[3] == 0xfb
    &&& content.holds_be(4, 4, header.format_version as int)
    &&& content.holds_be(8, 8, header.backing_file_name_offset as int)
    &&& content.holds_be(16, 4, header.backing_file_name_size as int)
    &&& content.holds_be(20, 4, header.number_of_cluster_block_bits as int)
    &&& content.holds_be(24, 8, header.media_size as int)
    &&& content.holds_be(32, 4, 0)
    &&& content.holds_be(36, 4, header.level1_table_number_of_references as int)
    &&& content.holds_be(40, 8, header.level1_table_offset as int)
    &&& content.holds_be(60, 4, header.number_of_snapshots as int)
    &&& content.holds_be(64, 8, header.snapshots_offset as int)
    &&& content.holds_be(100, 4, header.header_size as int)
    &&& content.bytes[104] == 0
}

/// A file header that is stored is read back where all its values are supported.
pub proof fn lemma_header_stored(content: Content, header: QcowFileHeader, a: int, b: int)
    requires
        holds_header(content, header),
        content.holds_be(72, 8, a),
        content.holds_be(80, 8, b),
    ensures
        header.format_version == 3 && a <= 1 && b <= 1 && 9 <= header.number_of_cluster_block_bits
            <= 63 && (header.header_size == 104 || header.header_size == 112) ==> header_of(content)
            == Ok::<QcowFileHeader, DriverError>(header),
        header.format_version != 3 || a > 1 || b > 1 || header.number_of_cluster_block_bits <= 8
            || header.number_of_cluster_block_bits > 63 || (header.header_size != 104
            && header.header_size != 112) ==> header_of(content) is Err,
{
    let data = content.window(0, 112);
    lemma_header_field(content, 4, 4, header.format_version as int);
    lemma_header_field(content, 8, 8, header.backing_file_name_offset as int);
    lemma_header_field(content, 16, 4, header.backing_file_name_size as int);
    lemma_header_field(content, 20, 4, header.number_of_cluster_block_bits as int);
    lemma_header_field(content, 24, 8, header.media_size as int);
    lemma_header_field(content, 32, 4, 0);
    lemma_header_field(content, 36, 4, header.level1_table_number_of_references as int);
    lemma_header_field(content, 40, 8, header.level1_table_offset as int);
    lemma_header_field(content, 60, 4, header.number_of_snapshots as int);
    lemma_header_field(content, 64, 8, header.snapshots_offset as int);
    lemma_header_field(content, 72, 8, a);
    lemma_header_field(content, 80, 8, b);
    lemma_header_field(content, 100, 4, header.header_size as int);
    assert(u32_be(data, 0) == 0x5146_49fb);
    assert(data[104] == 0);
}

proof fn lemma_header_field(content: Content, at: int, size: nat, value: int)
    requires
        0 <= at,
        at + size <= 112,
        content.holds_be(at, size, value),
    ensures
        size == 4 ==> u32_be(content.window(0, 112), at) == value,
        size == 8 ==> u64_be(content.window(0, 112), at) == value,
{
    lemma_holds_in(content, 0, 112, at, size, value);
    lemma_holds_be(content.window(0, 112), at, size, value);
}

/// Whether the tables of an image locate a cluster: with `n` entries of eight bytes in a table that
/// fills a cluster, the `k`-th entry of the level 1 table gives the offset of a level 2 table, whose
/// `m`-th entry gives that of the cluster with the number `k * n + m`. The upper two bits of an entry
/// are flags.
pub open spec fn holds_location(
    content: Content,
    header: QcowFileHeader,
    k: int,
    m: int,
    table_offset: int,
    table_flags: int,
    offset: int,
    flags: int,
) -> bool {
    &&& 0 <= k < header.level1_table_number_of_references
    &&& 0 <= m < pow2(header.number_of_cluster_block_bits as nat) / 8
    &&& 0 < table_offset < 0x4000_0000_0000_0000
    &&& 0 <= offset < 0x4000_0000_0000_0000
    &&& 0 <= table_flags < 4
    &&& 0 <= flags < 4
    &&& header.level1_table_offset + 8 * k <= u64::MAX
    &&& table_offset + 8 * m <= u64::MAX
    &&& content.holds_be(
        header.level1_table_offset + 8 * k,
        8,
        table_offset + 0x4000_0000_0000_0000 * table_flags,
    )
    &&& content.holds_be(table_offset + 8 * m, 8, offset + 0x4000_0000_0000_0000 * flags)
}

/// Every cluster is stored where its own entry in its own level 2 table says. An entry with an offset
/// of zero is that of a cluster that is not stored; one with bit 62 set is refused.
pub proof fn lemma_cluster_located(
    content: Content,
    header: QcowFileHeader,
    k: int,
    m: int,
    table_offset: int,
    table_flags: int,
    offset: int,
    flags: int,
)
    requires
        9 <= header.number_of_cluster_block_bits <= 63,
        holds_location(content, header, k, m, table_offset, table_flags, offset, flags),
    ensures
        ({
            let size = pow2(header.number_of_cluster_block_bits as nat) as int;
            let index = k * (size / 8) + m;
            &&& offset == 0 ==> cluster_offset(content, header, index) == Ok::<
                Option<u64>,
                DriverError,
            >(None)
            &&& offset != 0 && flags % 2 == 1 ==> cluster_offset(content, header, index) is Err
            &&& offset != 0 && flags % 2 == 0 && offset + size <= content.size && offset + size
                <= u64::MAX ==> cluster_offset(content, header, index) == Ok::<
                Option<u64>,
                DriverError,
            >(Some(offset as u64))
            &&& offset != 0 && offset + size > content.size ==> cluster_offset(
                content,
                header,
                index,
            ) is Err
        }),
{
    let size = cluster_size(header);
    let n = size / 8;
    let index = k * n + m;
    lemma_cluster_size(header);
    assert(index / n == k && index % n == m) by {
        vstd::arithmetic::div_mod::lemma_fundamental_div_mod_converse(index, n, k, m);
    }
    let first = table_offset + 0x4000_0000_0000_0000 * table_flags;
    let second = offset + 0x4000_0000_0000_0000 * flags;
    lemma_holds_be(content.window(header.level1_table_offset + 8 * k, 8), 0, 8, first);
    lemma_holds_be(content.window(table_offset + 8 * m, 8), 0, 8, second);
    assert(first % 0x4000_0000_0000_0000 == table_offset);
    assert(second % 0x4000_0000_0000_0000 == offset);
    assert(second / 0x4000_0000_0000_0000 == flags);
}

/// Every byte of a cluster is read from the place that the tables of the image give it: as far behind
/// the start of the stored cluster as it lies behind that of the cluster.
pub proof fn lemma_cluster_byte(
    source: DataSourceReference,
    header: QcowFileHeader,
    k: int,
    m: int,
    table_offset: int,
    table_flags: int,
    offset: int,
    flags: int,
    relative_offset: int,
)
    requires
        9 <= header.number_of_cluster_block_bits <= 63,
        holds_location(
            source.content(),
            header,
            k,
            m,
            table_offset,
            table_flags,
            offset,
            flags,
        ),
        flags % 2 == 0,
        offset + pow2(header.number_of_cluster_block_bits as nat) <= source.content().size,
        offset + pow2(header.number_of_cluster_block_bits as nat) <= u64::MAX,
        0 <= relative_offset < pow2(header.number_of_cluster_block_bits as nat),
    ensures
        ({
            let size = pow2(header.number_of_cluster_block_bits as nat) as int;
            media_location(source, header)((k * (size / 8) + m) * size + relative_offset) == (
            if offset == 0 {
                MediaLocation::Zero
            } else {
                MediaLocation::Data { source, offset: offset + relative_offset }
            })
        }),
{
    let size = cluster_size(header);
    lemma_cluster_located(
        source.content(),
        header,
        k,
        m,
        table_offset,
        table_flags,
        offset,
        flags,
    );
    lemma_cluster_size(header);
    let n = size / 8;
    assert(0 <= k * n) by (nonlinear_arith)
        requires
            0 <= k,
            0 <= n,
    ;
    lemma_block_byte(
        source,
        None,
        size,
        cluster_offsets(source.content(), header),
        k * n + m,
        relative_offset,
    );
}

/// All clusters of a level 2 table that is not stored are not stored, and a cluster without an entry
/// in the level 1 table cannot be located.
pub proof fn lemma_table_not_stored(
    content: Content,
    header: QcowFileHeader,
    k: int,
    m: int,
    table_flags: int,
)
    requires
        9 <= header.number_of_cluster_block_bits <= 63,
        0 <= k,
        0 <= m < pow2(header.number_of_cluster_block_bits as nat) / 8,
        0 <= table_flags < 4,
        header.level1_table_offset + 8 * k <= u64::MAX,
        content.holds_be(
            header.level1_table_offset + 8 * k,
            8,
            0x4000_0000_0000_0000 * table_flags,
        ),
    ensures
        ({
            let size = pow2(header.number_of_cluster_block_bits as nat) as int;
            let index = k * (size / 8) + m;
            &&& k < header.level1_table_number_of_references ==> cluster_offset(
                content,
                header,
                index,
            ) == Ok::<Option<u64>, DriverError>(None)
            &&& k >= header.level1_table_number_of_references ==> cluster_offset(
                content,
                header,
                index,
            ) is Err
        }),
{
    let size = cluster_size(header);
    let n = size / 8;
    let index = k * n + m;
    lemma_cluster_size(header);
    vstd::arithmetic::div_mod::lemma_fundamental_div_mod_converse(index, n, k, m);
    let first = 0x4000_0000_0000_0000 * table_flags;
    lemma_holds_be(content.window(header.level1_table_offset + 8 * k, 8), 0, 8, first);
    assert(first % 0x4000_0000_0000_0000 == 0);
}

proof fn lemma_cluster_size(header: QcowFileHeader)
    requires
        8 < header.number_of_cluster_block_bits <= 63,
    ensures
        512 <= cluster_size(header) <= u64::MAX,
{
    let bits = header.number_of_cluster_block_bits as nat;
    lemma2_to64();
    lemma_u64_pow2_no_overflow(bits);
    if bits > 9 {
        lemma_pow2_strictly_increases(9, bits);
    }
}

fn read_header(source: &DataSourceReference) -> (result: Result<QcowFileHeader, DriverError>)
    ensures
        match result {
            Ok(header) => header_of(source.content()) == Ok::<QcowFileHeader, DriverError>(header),
            Err(error) => source.reliable() ==> header_of(source.content()) == Err::<
                QcowFileHeader,
                DriverError,
            >(error),
        },
{
    let data: Vec<u8> = read_bytes(source, 0, 112)?;
    let data = data.as_slice();
    let format_version: u32 = read_u32_be(data, 4);
    let number_of_cluster_block_bits: u32 = read_u32_be(data, 20);
    let header_size: u32 = read_u32_be(data, 100);

    if read_u32_be(data, 0) != 0x5146_49fb || format_version != 3 {
        return Err(DriverError::Unsupported);
    }
    if read_u64_be(data, 72) > 1 || read_u64_be(data, 80) > 1 {
        return Err(DriverError::Unsupported);
    }
    if number_of_cluster_block_bits <= 8 || number_of_cluster_block_bits > 63 {
        return Err(DriverError::Unsupported);
    }
    if header_size != 104 && header_size != 112 {
        return Err(DriverError::Unsupported);
    }
    if data[104] != 0 || read_u32_be(data, 32) != 0 {
        return Err(DriverError::Unsupported);
    }
    Ok(
        QcowFileHeader {
            format_version,
            header_size,
            level1_table_number_of_references: read_u32_be(data, 36),
            level1_table_offset: read_u64_be(data, 40),
            number_of_cluster_block_bits,
            media_size: read_u64_be(data, 24),
            compression_method: QcowCompressionMethod::Zlib,
            encryption_method: QcowEncryptionMethod::Unencrypted,
            backing_file_name_offset: read_u64_be(data, 8),
            backing_file_name_size: read_u32_be(data, 16),
            number_of_snapshots: read_u32_be(data, 60),
            snapshots_offset: read_u64_be(data, 64),
        },
    )
}

fn read_table_entry(source: &DataSourceReference, table_offset: u64, index: u64) -> (result: Result<
    u64,
    DriverError,
>)
    requires
        index * 8 <= u64::MAX,
    ensures
        match result {
            Ok(entry) => table_entry(source.content(), table_offset as int, index as int) == Ok::<
                u64,
                DriverError,
            >(entry),
            Err(error) => source.reliable() ==> table_entry(
                source.content(),
                table_offset as int,
                index as int,
            ) == Err::<u64, DriverError>(error),
        },
{
    let entry_offset: u64 = table_offset.checked_add(index * 8).ok_or(DriverError::Overflow)?;
    let data: Vec<u8> = read_bytes(source, entry_offset, 8)?;
    Ok(read_u64_be(data.as_slice(), 0))
}

/// The cluster tables of an image.
struct ClusterTable<'a> {
    source: &'a DataSourceReference,
    source_size: u64,
    header: &'a QcowFileHeader,
    cluster_block_size: u64,
}

impl<'a> ClusterTable<'a> {
    #[verifier::type_invariant]
    spec fn well_formed(self) -> bool {
        &&& self.source_size == self.source.content().size
        &&& self.cluster_block_size == cluster_size(*self.header)
        &&& 512 <= self.cluster_block_size
    }
}

impl<'a> BlockTable for ClusterTable<'a> {
    closed spec fn block(&self, index: int) -> Result<Option<u64>, DriverError> {
        cluster_offset(self.source.content(), *self.header, index)
    }

    closed spec fn reliable(&self) -> bool {
        self.source.reliable()
    }

    fn locate(&self, index: u64) -> (result: Result<Option<u64>, DriverError>) {
        proof {
            use_type_invariant(self);
        }
        let table_length: u64 = self.cluster_block_size / 8;
        let level1_index: u64 = index / table_length;
        if level1_index >= self.header.level1_table_number_of_references as u64 {
            return Err(DriverError::OutOfBounds);
        }
        let level1_entry: u64 = read_table_entry(
            self.source,
            self.header.level1_table_offset,
            level1_index,
        )?;
        let level2_table_offset: u64 = level1_entry % 0x4000_0000_0000_0000;
        if level2_table_offset == 0 {
            return Ok(None);
        }
        let level2_index: u64 = index % table_length;
        let level2_entry: u64 = read_table_entry(self.source, level2_table_offset, level2_index)?;
        let block_data_offset: u64 = level2_entry % 0x4000_0000_0000_0000;
        if block_data_offset == 0 {
            return Ok(None);
        }
        if (level2_entry / 0x4000_0000_0000_0000) % 2 == 1 {
            return Err(DriverError::Unsupported);
        }
        let block_data_end: u64 = block_data_offset.checked_add(self.cluster_block_size).ok_or(
            DriverError::Overflow,
        )?;
        if block_data_end > self.source_size {
            return Err(DriverError::OutOfBounds);
        }
        Ok(Some(block_data_offset))
    }
}

/// QCOW file metadata plus opened logical source.
pub struct QcowFile {
    header: QcowFileHeader,
    cluster_block_size: u64,
    logical_source: DataSourceReference,
}

impl QcowFile {
    #[verifier::type_invariant]
    spec fn well_formed(self) -> bool {
        self.cluster_block_size == cluster_size(self.header)
    }

    /// The file header.
    pub closed spec fn header(&self) -> QcowFileHeader {
        self.header
    }

    /// The logical media source.
    pub closed spec fn logical_source(&self) -> DataSourceReference {
        self.logical_source
    }

    /// Opens and parses a QCOW file.
    pub fn open(source: DataSourceReference) -> (result: Result<Self, DriverError>)
        ensures
            match result {
                Ok(file) => {
                    &&& image_of(source.content()) == Ok::<QcowFileHeader, DriverError>(
                        file.header(),
                    )
                    &&& is_medium(
                        file.logical_source(),
                        source,
                        file.header().media_size as nat,
                        media_location(source, file.header()),
                    )
                    &&& source.reliable() ==> file.logical_source().reliable()
                },
                Err(error) => source.reliable() ==> image_of(source.content()) == Err::<
                    QcowFileHeader,
                    DriverError,
                >(error),
            },
    {
        let source_size: u64 = source.size()?;
        let header: QcowFileHeader = read_header(&source)?;

        if header.backing_file_name_offset > 0 || header.backing_file_name_size > 0 {
            return Err(DriverError::Unsupported);
        }
        if header.number_of_snapshots != 0 || header.snapshots_offset != 0 {
            return Err(DriverError::Unsupported);
        }
        proof {
            lemma_cluster_size(header);
            lemma_u64_shl_is_mul(1, header.number_of_cluster_block_bits as u64);
        }
        let cluster_block_size: u64 = 1u64 << header.number_of_cluster_block_bits as u64;
        let ghost offsets = cluster_offsets(source.content(), header);
        let table = ClusterTable {
            source: &source,
            source_size,
            header: &header,
            cluster_block_size,
        };
        let map = build_block_map(
            &table,
            &source,
            &None,
            cluster_block_size,
            header.media_size,
            Ghost(offsets),
        )?;
        proof {
            lemma_blocks_readable(source, None, cluster_size(header), offsets, header.media_size);
        }
        let logical_source = map.into_source(Ghost(media_location(source, header)));
        Ok(QcowFile { header, cluster_block_size, logical_source })
    }

    /// Retrieves the format version.
    pub fn format_version(&self) -> (format_version: u32)
        ensures
            format_version == self.header().format_version,
    {
        self.header.format_version
    }

    /// Retrieves the bytes-per-sector value.
    pub fn bytes_per_sector(&self) -> (bytes_per_sector: u16)
        ensures
            bytes_per_sector == 512,
    {
        512
    }

    /// Retrieves the header size.
    pub fn header_size(&self) -> (header_size: u32)
        ensures
            header_size == self.header().header_size,
    {
        self.header.header_size
    }

    /// Retrieves the cluster size.
    pub fn cluster_block_size(&self) -> (cluster_block_size: u64)
        ensures
            cluster_block_size == cluster_size(self.header()),
    {
        proof {
            use_type_invariant(self);
        }
        self.cluster_block_size
    }

    /// Retrieves the compression method.
    pub fn compression_method(&self) -> (compression_method: QcowCompressionMethod)
        ensures
            compression_method == self.header().compression_method,
    {
        self.header.compression_method
    }

    /// Retrieves the encryption method.
    pub fn encryption_method(&self) -> (encryption_method: QcowEncryptionMethod)
        ensures
            encryption_method == self.header().encryption_method,
    {
        self.header.encryption_method
    }

    /// Retrieves the media size.
    pub fn media_size(&self) -> (media_size: u64)
        ensures
            media_size == self.header().media_size,
    {
        self.header.media_size
    }

    /// Opens the logical media source.
    pub fn open_source(&self) -> (source: DataSourceReference)
        ensures
            source == self.logical_source(),
    {
        self.logical_source.clone()
    }
}

} // verus!
