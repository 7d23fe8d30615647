//! File systems.

use keramics_drivers::filesystem::{
    ExtFileSystem, FatFileSystem, FatFormat, HfsFileSystem, HfsFormat, NtfsFileSystem,
    XfsFileSystem,
};
use keramics_drivers::{
    DataSource, DataSourceReadConcurrency, DataSourceReference, DataSourceSeekCost, DriverError,
    MemoryDataSource,
};

fn memory(data: &[u8]) -> DataSourceReference {
    MemoryDataSource::new(data.to_vec()).into_reference()
}

fn put(data: &mut [u8], offset: usize, bytes: &[u8]) {
    data[offset..offset + bytes.len()].copy_from_slice(bytes);
}

// XFS

const XFS_FILE_MODE_TYPE_DIRECTORY_TEST: u16 = 0x4000;
const XFS_FILE_MODE_TYPE_REGULAR_FILE_TEST: u16 = 0x8000;
const XFS_FILE_MODE_TYPE_SYMBOLIC_LINK_TEST: u16 = 0xa000;
const XFS_INODE_FORMAT_LOCAL_TEST: u8 = 1;
const XFS_INODE_FORMAT_EXTENTS_TEST: u8 = 2;
const XFS_SUPERBLOCK_FEATURE2_FILE_TYPE_TEST: u32 = 0x0000_0200;

fn build_superblock(root_inode_number: u64) -> Vec<u8> {
    build_superblock_with_geometry(root_inode_number, 8, 1, 3)
}

fn build_superblock_with_geometry(
    root_inode_number: u64,
    allocation_group_block_size: u32,
    number_of_allocation_groups: u32,
    relative_block_bits: u8,
) -> Vec<u8> {
    let mut data = vec![0; 512];

    data[0..4].copy_from_slice(b"XFSB");
    data[4..8].copy_from_slice(&512u32.to_be_bytes());
    data[56..64].copy_from_slice(&root_inode_number.to_be_bytes());
    data[84..88].copy_from_slice(&allocation_group_block_size.to_be_bytes());
    data[88..92].copy_from_slice(&number_of_allocation_groups.to_be_bytes());
    data[100..102].copy_from_slice(&5u16.to_be_bytes());
    data[102..104].copy_from_slice(&512u16.to_be_bytes());
    data[104..106].copy_from_slice(&256u16.to_be_bytes());
    data[106..108].copy_from_slice(&2u16.to_be_bytes());
    data[108..116].copy_from_slice(b"xfs_test");
    data[123] = 1;
    data[124] = relative_block_bits;
    data[192] = 0;
    data[200..204].copy_from_slice(&XFS_SUPERBLOCK_FEATURE2_FILE_TYPE_TEST.to_be_bytes());

    data
}

fn put_agi_and_inobt_leaf(image: &mut [u8], root_block_number: u32, first_inode_number: u32) {
    let agi = &mut image[1024..1536];
    agi[0..4].copy_from_slice(b"XAGI");
    agi[4..8].copy_from_slice(&1u32.to_be_bytes());
    agi[12..16].copy_from_slice(&8u32.to_be_bytes());
    agi[20..24].copy_from_slice(&root_block_number.to_be_bytes());
    agi[24..28].copy_from_slice(&1u32.to_be_bytes());

    let root_start_offset = (root_block_number as usize) * 512;
    let root_end_offset = root_start_offset + 512;
    let root = &mut image[root_start_offset..root_end_offset];
    root[0..4].copy_from_slice(b"IAB3");
    root[4..6].copy_from_slice(&0u16.to_be_bytes());
    root[6..8].copy_from_slice(&1u16.to_be_bytes());
    root[56..60].copy_from_slice(&first_inode_number.to_be_bytes());
}

fn put_inode(
    image: &mut [u8],
    inode_offset: usize,
    file_mode: u16,
    data_fork_format: u8,
    data_size: u64,
    number_of_extents: u32,
    data_fork: &[u8],
) {
    let inode = &mut image[inode_offset..inode_offset + 256];

    inode[0..2].copy_from_slice(b"IN");
    inode[2..4].copy_from_slice(&file_mode.to_be_bytes());
    inode[4] = 3;
    inode[5] = data_fork_format;
    inode[8..12].copy_from_slice(&1000u32.to_be_bytes());
    inode[12..16].copy_from_slice(&1000u32.to_be_bytes());
    inode[16..20].copy_from_slice(&1u32.to_be_bytes());
    inode[56..64].copy_from_slice(&data_size.to_be_bytes());
    inode[76..80].copy_from_slice(&number_of_extents.to_be_bytes());
    inode[82] = 0;

    let copy_size = data_fork.len().min(256 - 176);
    inode[176..176 + copy_size].copy_from_slice(&data_fork[..copy_size]);
}

fn encode_extent(
    logical_block_number: u64,
    physical_block_number: u64,
    number_of_blocks: u64,
) -> [u8; 16] {
    let upper = (logical_block_number << 9) | (physical_block_number & 0x01ff);
    let lower = ((physical_block_number >> 9) << 21) | (number_of_blocks & 0x001f_ffff);
    let mut data = [0u8; 16];

    data[0..8].copy_from_slice(&upper.to_be_bytes());
    data[8..16].copy_from_slice(&lower.to_be_bytes());
    data
}

fn build_shortform_directory(entries: &[(&str, u32)]) -> Vec<u8> {
    let mut directory_data = Vec::new();

    directory_data.push(entries.len() as u8);
    directory_data.push(0u8);
    directory_data.extend_from_slice(&2u32.to_be_bytes());

    for (name, inode_number) in entries {
        directory_data.push(name.len() as u8);
        directory_data.extend_from_slice(&0u16.to_be_bytes());
        directory_data.extend_from_slice(name.as_bytes());
        directory_data.push(1u8);
        directory_data.extend_from_slice(&inode_number.to_be_bytes());
    }

    directory_data
}

fn open_xfs(image: &[u8]) -> Result<XfsFileSystem, DriverError> {
    XfsFileSystem::open(memory(image))
}

#[test]
fn read_xfs_inline_file_and_shortform_directory() -> Result<(), DriverError> {
    let mut image = vec![0; 4096];
    let superblock = build_superblock(2);
    image[0..512].copy_from_slice(&superblock);
    put_agi_and_inobt_leaf(&mut image, 4, 0);

    let directory_data = build_shortform_directory(&[("hello.txt", 3)]);
    put_inode(
        &mut image,
        512,
        XFS_FILE_MODE_TYPE_DIRECTORY_TEST,
        XFS_INODE_FORMAT_LOCAL_TEST,
        directory_data.len() as u64,
        0,
        &directory_data,
    );
    put_inode(
        &mut image,
        768,
        XFS_FILE_MODE_TYPE_REGULAR_FILE_TEST,
        XFS_INODE_FORMAT_LOCAL_TEST,
        3,
        0,
        b"abc",
    );

    let file_system = open_xfs(&image)?;

    assert_eq!(file_system.format_version(), 5);
    assert_eq!(file_system.volume_label(), Some("xfs_test"));

    let root_directory = file_system.root_directory()?;
    assert_eq!(root_directory.inode_number(), 2);
    assert_eq!(root_directory.number_of_sub_file_entries()?, 1);

    let file_entry = file_system.file_entry_by_path("/hello.txt")?.unwrap();
    assert_eq!(file_entry.size(), 3);
    assert_eq!(file_entry.name(), Some("hello.txt"));

    let source = file_entry.open_source()?.unwrap();
    assert_eq!(source.read_all()?, b"abc");

    Ok(())
}

#[test]
fn read_xfs_extent_file_and_block_directory() -> Result<(), DriverError> {
    let mut image = vec![0; 4096];
    let superblock = build_superblock(2);
    image[0..512].copy_from_slice(&superblock);
    put_agi_and_inobt_leaf(&mut image, 4, 0);

    let directory_extent = encode_extent(0, 5, 1);
    put_inode(
        &mut image,
        512,
        XFS_FILE_MODE_TYPE_DIRECTORY_TEST,
        XFS_INODE_FORMAT_EXTENTS_TEST,
        0,
        1,
        &directory_extent,
    );

    let file_extent = encode_extent(0, 3, 1);
    put_inode(
        &mut image,
        768,
        XFS_FILE_MODE_TYPE_REGULAR_FILE_TEST,
        XFS_INODE_FORMAT_EXTENTS_TEST,
        3,
        1,
        &file_extent,
    );

    let directory_block = &mut image[2560..3072];
    directory_block[0..4].copy_from_slice(b"XD2D");
    let mut data_offset: usize = 16;
    directory_block[data_offset..data_offset + 8].copy_from_slice(&3u64.to_be_bytes());
    directory_block[data_offset + 8] = 4;
    directory_block[data_offset + 9..data_offset + 13].copy_from_slice(b"file");
    directory_block[data_offset + 13] = 1;
    directory_block[data_offset + 14..data_offset + 16].copy_from_slice(&0u16.to_be_bytes());
    data_offset += 16;
    directory_block[data_offset..data_offset + 2].copy_from_slice(&0xffffu16.to_be_bytes());
    directory_block[data_offset + 2..data_offset + 4]
        .copy_from_slice(&((512 - data_offset) as u16).to_be_bytes());

    image[1536..1539].copy_from_slice(b"XYZ");

    let file_system = open_xfs(&image)?;
    let file_entry = file_system.file_entry_by_path("/file")?.unwrap();
    let source = file_entry.open_source()?.unwrap();

    assert_eq!(source.read_all()?, b"XYZ");
    Ok(())
}

#[test]
fn read_xfs_symbolic_link_directory_path() -> Result<(), DriverError> {
    let mut image = vec![0; 8192];
    let superblock = build_superblock(2);
    image[0..512].copy_from_slice(&superblock);
    put_agi_and_inobt_leaf(&mut image, 4, 0);

    let root_directory_data = build_shortform_directory(&[("linkdir", 3), ("real", 10)]);
    put_inode(
        &mut image,
        512,
        XFS_FILE_MODE_TYPE_DIRECTORY_TEST,
        XFS_INODE_FORMAT_LOCAL_TEST,
        root_directory_data.len() as u64,
        0,
        &root_directory_data,
    );
    put_inode(
        &mut image,
        768,
        XFS_FILE_MODE_TYPE_SYMBOLIC_LINK_TEST,
        XFS_INODE_FORMAT_LOCAL_TEST,
        4,
        0,
        b"real",
    );

    let real_directory_data = build_shortform_directory(&[("x", 11)]);
    put_inode(
        &mut image,
        2560,
        XFS_FILE_MODE_TYPE_DIRECTORY_TEST,
        XFS_INODE_FORMAT_LOCAL_TEST,
        real_directory_data.len() as u64,
        0,
        &real_directory_data,
    );
    put_inode(
        &mut image,
        2816,
        XFS_FILE_MODE_TYPE_REGULAR_FILE_TEST,
        XFS_INODE_FORMAT_LOCAL_TEST,
        2,
        0,
        b"ok",
    );

    let file_system = open_xfs(&image)?;

    let symbolic_link_entry = file_system.file_entry_by_path("/linkdir")?.unwrap();
    assert!(symbolic_link_entry.is_symbolic_link());
    assert_eq!(
        symbolic_link_entry.symbolic_link_target()?,
        Some("real".to_string())
    );

    let file_entry = file_system.file_entry_by_path("/linkdir/x")?.unwrap();
    let source = file_entry.open_source()?.unwrap();

    assert_eq!(source.read_all()?, b"ok");

    Ok(())
}

#[test]
fn read_xfs_extent_with_allocation_group_geometry() -> Result<(), DriverError> {
    let mut image = vec![0; 16384];
    let superblock = build_superblock_with_geometry(2, 6, 2, 3);
    image[0..512].copy_from_slice(&superblock);
    put_agi_and_inobt_leaf(&mut image, 4, 0);

    let directory_data = build_shortform_directory(&[("file", 3)]);
    put_inode(
        &mut image,
        512,
        XFS_FILE_MODE_TYPE_DIRECTORY_TEST,
        XFS_INODE_FORMAT_LOCAL_TEST,
        directory_data.len() as u64,
        0,
        &directory_data,
    );

    let file_extent = encode_extent(0, 9, 1);
    put_inode(
        &mut image,
        768,
        XFS_FILE_MODE_TYPE_REGULAR_FILE_TEST,
        XFS_INODE_FORMAT_EXTENTS_TEST,
        4,
        1,
        &file_extent,
    );
    image[7 * 512..7 * 512 + 4].copy_from_slice(b"DATA");

    let file_system = open_xfs(&image)?;
    let file_entry = file_system.file_entry_by_path("/file")?.unwrap();
    let source = file_entry.open_source()?.unwrap();

    assert_eq!(source.read_all()?, b"DATA");

    Ok(())
}

#[test]
fn xfs_paths() -> Result<(), DriverError> {
    let mut image = vec![0; 4096];
    put(&mut image, 0, &build_superblock(2));
    put_agi_and_inobt_leaf(&mut image, 4, 0);
    let directory_data = build_shortform_directory(&[("loop", 3)]);
    put_inode(
        &mut image,
        512,
        XFS_FILE_MODE_TYPE_DIRECTORY_TEST,
        XFS_INODE_FORMAT_LOCAL_TEST,
        directory_data.len() as u64,
        0,
        &directory_data,
    );
    put_inode(
        &mut image,
        768,
        XFS_FILE_MODE_TYPE_SYMBOLIC_LINK_TEST,
        XFS_INODE_FORMAT_LOCAL_TEST,
        4,
        0,
        b"loop",
    );
    let file_system = open_xfs(&image)?;

    let root = file_system.file_entry_by_path("/")?.unwrap();
    assert_eq!(root.inode_number(), 2);
    assert!(root.is_directory());
    assert_eq!(root.name(), None);
    assert!(root.open_source()?.is_none());
    assert_eq!(
        root.sub_file_entry_by_name("loop")?.unwrap().inode_number(),
        3
    );
    assert!(root.sub_file_entry_by_name("missing")?.is_none());
    assert!(file_system.file_entry_by_path("loop")?.is_none());
    assert!(file_system.file_entry_by_path("/missing")?.is_none());
    assert_eq!(
        file_system.file_entry_by_path("/loop/x").err(),
        Some(DriverError::LimitExceeded)
    );
    assert!(file_system.file_entry_by_path("/.")?.is_none());
    assert_eq!(file_system.file_entry_by_identifier(3)?.size(), 4);
    assert!(file_system.file_entry_by_identifier(1 << 60).is_err());
    assert!(open_xfs(&vec![0u8; 4096]).is_err());
    Ok(())
}

// Ext

fn ext_inode(mode: u16, size: u32, flags: u32, reference: &[u8]) -> Vec<u8> {
    let mut data = vec![0u8; 128];
    put(&mut data, 0, &mode.to_le_bytes());
    put(&mut data, 4, &size.to_le_bytes());
    put(&mut data, 28, &((size + 511) / 512).to_le_bytes());
    put(&mut data, 32, &flags.to_le_bytes());
    put(&mut data, 40, reference);
    data
}

fn ext_entry(inode_number: u32, size: u16, name: &str) -> Vec<u8> {
    let mut data = vec![0u8; size as usize];
    put(&mut data, 0, &inode_number.to_le_bytes());
    put(&mut data, 4, &size.to_le_bytes());
    data[6] = name.len() as u8;
    put(&mut data, 8, name.as_bytes());
    data
}

fn block_numbers(numbers: &[u32]) -> Vec<u8> {
    let mut data: Vec<u8> = Vec::new();
    for number in numbers {
        data.extend_from_slice(&number.to_le_bytes());
    }
    data
}

/// Blocks: boot, superblock, descriptors, inode table (two), then data.
fn build_ext(incompatible_features: u32) -> Vec<u8> {
    let mut image = vec![0u8; 16 * 1024];
    put(&mut image, 1024, &16u32.to_le_bytes());
    put(&mut image, 1024 + 4, &16u32.to_le_bytes());
    put(&mut image, 1024 + 32, &8192u32.to_le_bytes());
    put(&mut image, 1024 + 40, &16u32.to_le_bytes());
    put(&mut image, 1024 + 56, &[0x53, 0xef]);
    put(&mut image, 1024 + 76, &1u32.to_le_bytes());
    put(&mut image, 1024 + 88, &128u16.to_le_bytes());
    put(&mut image, 1024 + 96, &incompatible_features.to_le_bytes());
    put(&mut image, 1024 + 120, b"ext_test");
    put(&mut image, 2048 + 8, &3u32.to_le_bytes());

    let inode_table = 3 * 1024;
    put(
        &mut image,
        inode_table + 128,
        &ext_inode(0x41ed, 1024, 0, &block_numbers(&[6])),
    );
    put(
        &mut image,
        inode_table + 11 * 128,
        &ext_inode(0x81a4, 3000, 0, &block_numbers(&[7, 0, 8])),
    );
    put(
        &mut image,
        inode_table + 12 * 128,
        &ext_inode(0xa1ff, 4, 0, b"file"),
    );
    put(
        &mut image,
        inode_table + 13 * 128,
        &ext_inode(0x81a4, 0, 0, &[]),
    );
    let mut entries = ext_entry(2, 12, ".");
    entries.extend_from_slice(&ext_entry(2, 12, ".."));
    entries.extend_from_slice(&ext_entry(12, 16, "file"));
    entries.extend_from_slice(&ext_entry(13, 16, "link"));
    entries.extend_from_slice(&ext_entry(14, 16, "empty"));
    let rest = 1024 - entries.len() as u16;
    entries.extend_from_slice(&ext_entry(15, rest, "other"));
    put(&mut image, 6 * 1024, &entries);
    image[7 * 1024..8 * 1024].fill(b'a');
    image[8 * 1024..9 * 1024].fill(b'b');
    image
}

#[test]
fn ext2_files() -> Result<(), DriverError> {
    let file_system = ExtFileSystem::open(memory(&build_ext(0)))?;

    assert_eq!(file_system.format_version(), 2);
    assert_eq!(file_system.volume_label(), Some("ext_test"));
    assert_eq!(file_system.compatible_feature_flags(), 0);
    assert_eq!(file_system.incompatible_feature_flags(), 0);
    assert_eq!(file_system.read_only_compatible_feature_flags(), 0);

    let root = file_system.root_directory()?;
    assert_eq!(root.inode_number(), 2);
    assert!(root.is_directory());
    assert_eq!(
        file_system.file_entry_by_path("/")?.unwrap().inode_number(),
        2
    );

    let file = file_system.file_entry_by_path("/file")?.unwrap();
    assert_eq!(file.inode_number(), 12);
    assert_eq!(file.name(), Some("file"));
    assert_eq!(file.size(), 3000);
    let source = file.open_source()?.unwrap();
    assert_eq!(source.size()?, 3000);
    let data = source.read_all()?;
    assert!(data[0..1024].iter().all(|value| *value == b'a'));
    assert!(data[1024..2048].iter().all(|value| *value == 0));
    assert!(data[2048..3000].iter().all(|value| *value == b'b'));
    assert_eq!(
        source.capabilities().read_concurrency,
        DataSourceReadConcurrency::Concurrent
    );
    assert_eq!(source.capabilities().seek_cost, DataSourceSeekCost::Cheap);

    let link = file_system.file_entry_by_path("/link")?.unwrap();
    assert!(link.is_symbolic_link());
    let empty = file_system.file_entry_by_path("/empty")?.unwrap();
    assert_eq!(empty.open_source()?.unwrap().read_all()?, b"");
    assert!(file_system.file_entry_by_path("/FILE")?.is_none());
    assert!(file_system.file_entry_by_path("/.")?.is_none());
    assert!(file_system.file_entry_by_path("/..")?.is_none());
    assert!(file_system.file_entry_by_path("file")?.is_none());
    assert!(file_system.file_entry_by_identifier(0).is_err());
    assert!(file_system.file_entry_by_identifier(17).is_err());
    assert_eq!(
        file_system.file_entry_by_identifier(12)?.inode_number(),
        12
    );
    Ok(())
}

#[test]
fn ext4_extents() -> Result<(), DriverError> {
    let mut image = build_ext(0x40);
    let mut tree: Vec<u8> = vec![0x0a, 0xf3, 2, 0, 4, 0, 0, 0, 0, 0, 0, 0];
    // One block at block 1, and one uninitialized block at block 2.
    tree.extend_from_slice(&1u32.to_le_bytes());
    tree.extend_from_slice(&1u16.to_le_bytes());
    tree.extend_from_slice(&0u16.to_le_bytes());
    tree.extend_from_slice(&8u32.to_le_bytes());
    tree.extend_from_slice(&2u32.to_le_bytes());
    tree.extend_from_slice(&32769u16.to_le_bytes());
    tree.extend_from_slice(&0u16.to_le_bytes());
    tree.extend_from_slice(&7u32.to_le_bytes());
    put(
        &mut image,
        3 * 1024 + 11 * 128,
        &ext_inode(0x81a4, 3000, 0x0008_0000, &tree),
    );
    put(
        &mut image,
        3 * 1024 + 14 * 128,
        &ext_inode(0x81a4, 6, 0x1000_0000, b"inline"),
    );
    let file_system = ExtFileSystem::open(memory(&image))?;

    assert_eq!(file_system.format_version(), 4);
    let file = file_system.file_entry_by_path("/file")?.unwrap();
    let data = file.open_source()?.unwrap().read_all()?;
    assert_eq!(data.len(), 3000);
    assert!(data[0..1024].iter().all(|value| *value == 0));
    assert!(data[1024..2048].iter().all(|value| *value == b'b'));
    assert!(data[2048..3000].iter().all(|value| *value == 0));
    let inline = file_system.file_entry_by_path("/other")?.unwrap();
    assert_eq!(inline.open_source()?.unwrap().read_all()?, b"inline");
    Ok(())
}

#[test]
fn ext_indirect_blocks() -> Result<(), DriverError> {
    let mut image = build_ext(0);
    let mut numbers = vec![7u32; 12];
    numbers.push(9);
    put(
        &mut image,
        3 * 1024 + 11 * 128,
        &ext_inode(0x81a4, 14 * 1024, 0, &block_numbers(&numbers)),
    );
    put(&mut image, 9 * 1024, &block_numbers(&[8, 7]));
    let file_system = ExtFileSystem::open(memory(&image))?;
    let file = file_system.file_entry_by_path("/file")?.unwrap();
    let data = file.open_source()?.unwrap().read_all()?;

    assert!(data[0..12 * 1024].iter().all(|value| *value == b'a'));
    assert!(data[12 * 1024..13 * 1024].iter().all(|value| *value == b'b'));
    assert!(data[13 * 1024..].iter().all(|value| *value == b'a'));
    Ok(())
}

#[test]
fn ext_rejects_what_it_cannot_read() {
    assert!(ExtFileSystem::open(memory(&vec![0u8; 4096])).is_err());
    assert_eq!(
        ExtFileSystem::open(memory(&vec![0u8; 100])).err(),
        Some(DriverError::Truncated)
    );
    assert_eq!(
        ExtFileSystem::open(memory(&build_ext(0x1))).err(),
        Some(DriverError::Unsupported)
    );
}

// FAT

fn fat_entry(name: &[u8; 11], attributes: u8, cluster: u16, size: u32) -> Vec<u8> {
    let mut data = vec![0u8; 32];
    put(&mut data, 0, name);
    data[11] = attributes;
    put(&mut data, 26, &cluster.to_le_bytes());
    put(&mut data, 28, &size.to_le_bytes());
    data
}

fn fat_long_entry(sequence_number: u8, name: &str) -> Vec<u8> {
    let mut units: Vec<u16> = name.encode_utf16().collect();
    if units.len() < 13 {
        units.push(0);
    }
    while units.len() < 13 {
        units.push(0xffff);
    }
    let mut data = vec![0u8; 32];
    data[0] = sequence_number;
    data[11] = 0x0f;
    for (index, unit) in units.iter().enumerate() {
        let offset = if index < 5 {
            1 + 2 * index
        } else if index < 11 {
            14 + 2 * (index - 5)
        } else {
            28 + 2 * (index - 11)
        };
        put(&mut data, offset, &unit.to_le_bytes());
    }
    data
}

fn set_fat12(image: &mut [u8], index: usize, value: u16) {
    let offset = 512 + (index / 2) * 3;
    if index % 2 == 0 {
        image[offset] = value as u8;
        image[offset + 1] = (image[offset + 1] & 0xf0) | (value >> 8) as u8;
    } else {
        image[offset + 1] = (image[offset + 1] & 0x0f) | ((value << 4) as u8);
        image[offset + 2] = (value >> 4) as u8;
    }
}

/// Sectors: boot, allocation table, root directory, then clusters of one sector.
fn build_fat12() -> Vec<u8> {
    let mut image = vec![0u8; 20 * 512];
    put(&mut image, 11, &512u16.to_le_bytes());
    image[13] = 1;
    put(&mut image, 14, &1u16.to_le_bytes());
    image[16] = 1;
    put(&mut image, 17, &16u16.to_le_bytes());
    put(&mut image, 19, &20u16.to_le_bytes());
    put(&mut image, 22, &1u16.to_le_bytes());
    image[38] = 0x29;
    put(&mut image, 39, &0x1234_abcdu32.to_le_bytes());
    put(&mut image, 43, b"FAT_TEST   ");
    put(&mut image, 510, &[0x55, 0xaa]);

    set_fat12(&mut image, 2, 0xfff);
    set_fat12(&mut image, 3, 5);
    set_fat12(&mut image, 5, 0xfff);
    set_fat12(&mut image, 6, 6);

    let mut root: Vec<u8> = fat_entry(b"LABEL      ", 0x08, 0, 0);
    root.extend_from_slice(&fat_entry(b"DIR        ", 0x10, 2, 0));
    root.extend_from_slice(&fat_entry(b"\xe5ELETED TXT", 0x20, 9, 9));
    root.extend_from_slice(&fat_long_entry(0x42, "e.text"));
    root.extend_from_slice(&fat_long_entry(0x01, "A long nam\u{e9} h"));
    root.extend_from_slice(&fat_entry(b"ALONGN~1TEX", 0x20, 3, 600));
    root.extend_from_slice(&fat_entry(b"EMPTY   TXT", 0x20, 0, 0));
    root.extend_from_slice(&fat_entry(b"LOOP    TXT", 0x20, 6, 1024));
    put(&mut image, 1024, &root);

    // Cluster 2 holds the directory, clusters 3 and 5 the file.
    let mut directory: Vec<u8> = fat_entry(b".          ", 0x10, 2, 0);
    directory.extend_from_slice(&fat_entry(b"..         ", 0x10, 0, 0));
    directory.extend_from_slice(&fat_entry(b"FILE    TXT", 0x20, 3, 4));
    put(&mut image, 3 * 512, &directory);
    image[4 * 512..5 * 512].fill(b'a');
    image[6 * 512..7 * 512].fill(b'b');
    image
}

#[test]
fn fat12_files() -> Result<(), DriverError> {
    let file_system = FatFileSystem::open(memory(&build_fat12()))?;

    assert_eq!(file_system.format(), FatFormat::Fat12);
    assert_eq!(file_system.bytes_per_sector(), 512);
    assert_eq!(file_system.volume_serial_number(), 0x1234_abcd);
    assert_eq!(file_system.volume_label(), Some("LABEL"));

    let root = file_system.root_directory()?;
    assert!(root.is_root_directory());
    assert!(root.is_directory());
    assert_eq!(root.name(), None);
    assert_eq!(root.number_of_sub_file_entries()?, 4);
    assert!(root.open_source()?.is_none());

    let file = file_system
        .file_entry_by_path("/A long nam\u{e9} he.text")?
        .unwrap();
    assert_eq!(file.name(), Some("A long nam\u{e9} he.text"));
    assert_eq!(file.size(), 600);
    let source = file.open_source()?.unwrap();
    assert_eq!(source.size()?, 600);
    let data = source.read_all()?;
    assert!(data[0..512].iter().all(|value| *value == b'a'));
    assert!(data[512..600].iter().all(|value| *value == b'b'));

    let nested = file_system.file_entry_by_path("/dir/file.txt")?.unwrap();
    assert_eq!(nested.name(), Some("FILE.TXT"));
    assert_eq!(nested.open_source()?.unwrap().read_all()?, b"aaaa");
    let upper = file_system.file_entry_by_path("/DIR/FILE.TXT")?.unwrap();
    assert_eq!(upper.identifier(), nested.identifier());
    let empty = root.sub_file_entry_by_name("empty.TXT")?.unwrap();
    assert_eq!(empty.open_source()?.unwrap().read_all()?, b"");
    assert!(file_system.file_entry_by_path("/missing")?.is_none());
    assert!(file_system.file_entry_by_path("dir")?.is_none());
    Ok(())
}

#[test]
fn fat_cluster_cycles_are_refused() -> Result<(), DriverError> {
    let file_system = FatFileSystem::open(memory(&build_fat12()))?;
    let file = file_system.file_entry_by_path("/loop.txt")?.unwrap();

    assert_eq!(file.open_source().err(), Some(DriverError::Cycle));
    Ok(())
}

#[test]
fn fat_rejects_what_it_cannot_read() {
    assert!(FatFileSystem::open(memory(&vec![0u8; 1024])).is_err());
    assert_eq!(
        FatFileSystem::open(memory(&vec![0u8; 100])).err(),
        Some(DriverError::Truncated)
    );
    let mut image = build_fat12();
    put(&mut image, 11, &513u16.to_le_bytes());
    assert!(FatFileSystem::open(memory(&image)).is_err());
}

// HFS

fn hfs_plus_key(parent: u32, name: &str) -> Vec<u8> {
    let units: Vec<u16> = name.encode_utf16().collect();
    let mut data: Vec<u8> = Vec::new();
    data.extend_from_slice(&(6 + 2 * units.len() as u16).to_be_bytes());
    data.extend_from_slice(&parent.to_be_bytes());
    data.extend_from_slice(&(units.len() as u16).to_be_bytes());
    for unit in units {
        data.extend_from_slice(&unit.to_be_bytes());
    }
    data
}

fn hfs_plus_fork(size: u64, extents: &[(u32, u32)]) -> Vec<u8> {
    let mut data = vec![0u8; 80];
    let count: u32 = extents.iter().map(|extent| extent.1).sum();
    put(&mut data, 0, &size.to_be_bytes());
    put(&mut data, 12, &count.to_be_bytes());
    for (index, (block, count)) in extents.iter().enumerate() {
        put(&mut data, 16 + 8 * index, &block.to_be_bytes());
        put(&mut data, 20 + 8 * index, &count.to_be_bytes());
    }
    data
}

fn hfs_plus_folder(parent: u32, name: &str, identifier: u32) -> Vec<u8> {
    let mut data = hfs_plus_key(parent, name);
    let mut record = vec![0u8; 88];
    put(&mut record, 0, &1u16.to_be_bytes());
    put(&mut record, 8, &identifier.to_be_bytes());
    data.extend_from_slice(&record);
    data
}

fn hfs_plus_file(parent: u32, name: &str, identifier: u32, fork: &[u8]) -> Vec<u8> {
    let mut data = hfs_plus_key(parent, name);
    let mut record = vec![0u8; 248];
    put(&mut record, 0, &2u16.to_be_bytes());
    put(&mut record, 8, &identifier.to_be_bytes());
    put(&mut record, 88, fork);
    data.extend_from_slice(&record);
    data
}

fn btree_node(next: u32, kind: u8, size: usize, records: &[Vec<u8>]) -> Vec<u8> {
    let mut data = vec![0u8; size];
    put(&mut data, 0, &next.to_be_bytes());
    data[8] = kind;
    put(&mut data, 10, &(records.len() as u16).to_be_bytes());
    let mut offset: usize = 14;
    for (index, record) in records.iter().enumerate() {
        put(&mut data, offset, record);
        put(&mut data, size - 2 * (index + 1), &(offset as u16).to_be_bytes());
        offset += record.len();
    }
    put(
        &mut data,
        size - 2 * (records.len() + 1),
        &(offset as u16).to_be_bytes(),
    );
    data
}

fn build_hfs_plus(signature: &[u8; 2]) -> Vec<u8> {
    let mut image = vec![0u8; 20 * 1024];
    put(&mut image, 1024, signature);
    put(&mut image, 1024 + 40, &1024u32.to_be_bytes());
    put(&mut image, 1024 + 272, &hfs_plus_fork(3072, &[(4, 2), (8, 1)]));

    let mut header = btree_node(0, 1, 1024, &[]);
    put(&mut header, 14 + 10, &1u32.to_be_bytes());
    put(&mut header, 14 + 18, &1024u16.to_be_bytes());
    put(&mut image, 4 * 1024, &header);
    let leaf = btree_node(
        2,
        0xff,
        1024,
        &[
            hfs_plus_folder(1, "Volume", 2),
            hfs_plus_folder(2, "D\u{ef}r", 16),
            hfs_plus_file(2, "Empty", 17, &hfs_plus_fork(0, &[])),
        ],
    );
    put(&mut image, 5 * 1024, &leaf);
    let leaf = btree_node(
        0,
        0xff,
        1024,
        &[hfs_plus_file(16, "a/b", 18, &hfs_plus_fork(1500, &[(10, 1), (12, 1)]))],
    );
    put(&mut image, 8 * 1024, &leaf);
    image[10 * 1024..11 * 1024].fill(b'a');
    image[12 * 1024..13 * 1024].fill(b'b');
    image
}

#[test]
fn hfs_plus_files() -> Result<(), DriverError> {
    let file_system = HfsFileSystem::open(memory(&build_hfs_plus(b"H+")))?;

    assert_eq!(file_system.format(), HfsFormat::HfsPlus);
    let root = file_system.root_directory()?;
    assert_eq!(root.identifier(), 2);
    assert_eq!(root.name(), Some("Volume"));
    assert!(root.is_directory());
    assert!(root.open_source()?.is_none());

    let file = file_system.file_entry_by_path("/d\u{cf}R/A:B")?.unwrap();
    assert_eq!(file.identifier(), 18);
    assert_eq!(file.name(), Some("a:b"));
    assert_eq!(file.size(), 1500);
    let source = file.open_source()?.unwrap();
    assert_eq!(source.size()?, 1500);
    let data = source.read_all()?;
    assert!(data[0..1024].iter().all(|value| *value == b'a'));
    assert!(data[1024..1500].iter().all(|value| *value == b'b'));

    let empty = file_system.file_entry_by_identifier(17)?.unwrap();
    assert_eq!(empty.open_source()?.unwrap().read_all()?, b"");
    assert!(file_system.file_entry_by_identifier(99)?.is_none());
    assert!(file_system.file_entry_by_path("/missing")?.is_none());
    assert!(file_system.file_entry_by_path("empty")?.is_none());
    assert_eq!(
        HfsFileSystem::open(memory(&build_hfs_plus(b"HX")))?.format(),
        HfsFormat::HfsX
    );
    Ok(())
}

#[test]
fn hfs_standard_files() -> Result<(), DriverError> {
    let mut image = vec![0u8; 20 * 512];
    put(&mut image, 1024, b"BD");
    put(&mut image, 1024 + 20, &512u32.to_be_bytes());
    put(&mut image, 1024 + 28, &4u16.to_be_bytes());
    put(&mut image, 1024 + 146, &1024u32.to_be_bytes());
    put(&mut image, 1024 + 150, &[0, 1, 0, 2]);
    let mut header = btree_node(0, 1, 512, &[]);
    put(&mut header, 14 + 10, &1u32.to_be_bytes());
    put(&mut header, 14 + 18, &512u16.to_be_bytes());
    put(&mut image, 5 * 512, &header);
    let mut record: Vec<u8> = vec![11, 0, 0, 0, 0, 2, 5];
    record.extend_from_slice(b"Hello");
    let mut file = vec![0u8; 102];
    put(&mut file, 0, &0x0200u16.to_be_bytes());
    put(&mut file, 20, &16u32.to_be_bytes());
    put(&mut file, 26, &700u32.to_be_bytes());
    put(&mut file, 74, &[0, 6, 0, 2]);
    record.extend_from_slice(&file);
    put(&mut image, 6 * 512, &btree_node(0, 0xff, 512, &[record]));
    image[10 * 512..12 * 512].fill(b'h');

    let file_system = HfsFileSystem::open(memory(&image))?;
    assert_eq!(file_system.format(), HfsFormat::Hfs);
    assert_eq!(file_system.root_directory()?.name(), None);
    let file = file_system.file_entry_by_path("/hello")?.unwrap();
    assert_eq!(file.size(), 700);
    assert_eq!(file.open_source()?.unwrap().read_all()?, vec![b'h'; 700]);
    Ok(())
}

#[test]
fn hfs_rejects_what_it_cannot_read() {
    assert!(HfsFileSystem::open(memory(&vec![0u8; 4096])).is_err());
    assert_eq!(
        HfsFileSystem::open(memory(&vec![0u8; 100])).err(),
        Some(DriverError::Truncated)
    );
    let mut cyclic = build_hfs_plus(b"H+");
    put(&mut cyclic, 8 * 1024, &1u32.to_be_bytes());
    assert_eq!(
        HfsFileSystem::open(memory(&cyclic)).err(),
        Some(DriverError::Cycle)
    );
}

// NTFS

fn utf16_le(text: &str) -> Vec<u8> {
    let mut data: Vec<u8> = Vec::new();
    for unit in text.encode_utf16() {
        data.extend_from_slice(&unit.to_le_bytes());
    }
    data
}

fn ntfs_resident(kind: u32, name: &str, value: &[u8]) -> Vec<u8> {
    let name_data = utf16_le(name);
    let value_offset = (24 + name_data.len() + 7) / 8 * 8;
    let size = (value_offset + value.len() + 7) / 8 * 8;
    let mut data = vec![0u8; size];
    put(&mut data, 0, &kind.to_le_bytes());
    put(&mut data, 4, &(size as u32).to_le_bytes());
    data[9] = name.len() as u8;
    put(&mut data, 10, &24u16.to_le_bytes());
    put(&mut data, 16, &(value.len() as u32).to_le_bytes());
    put(&mut data, 20, &(value_offset as u16).to_le_bytes());
    put(&mut data, 24, &name_data);
    put(&mut data, value_offset, value);
    data
}

fn ntfs_stored(kind: u32, name: &str, data_size: u64, runs: &[u8]) -> Vec<u8> {
    let name_data = utf16_le(name);
    let runs_offset = 64 + (name_data.len() + 7) / 8 * 8;
    let size = (runs_offset + runs.len() + 8) / 8 * 8;
    let mut data = vec![0u8; size];
    put(&mut data, 0, &kind.to_le_bytes());
    put(&mut data, 4, &(size as u32).to_le_bytes());
    data[8] = 1;
    data[9] = name.len() as u8;
    put(&mut data, 10, &64u16.to_le_bytes());
    put(&mut data, 32, &(runs_offset as u16).to_le_bytes());
    put(&mut data, 48, &data_size.to_le_bytes());
    put(&mut data, 64, &name_data);
    put(&mut data, runs_offset, runs);
    data
}

/// Writes a record over two sectors and saves what its fix-up values replace.
fn protect(data: &mut [u8], fixup_offset: usize) {
    put(data, 4, &(fixup_offset as u16).to_le_bytes());
    put(data, 6, &3u16.to_le_bytes());
    put(data, fixup_offset, &[0x5a, 0xa5]);
    for index in 0..2 {
        let at = 510 + 512 * index;
        let saved = [data[at], data[at + 1]];
        put(data, fixup_offset + 2 + 2 * index, &saved);
        put(data, at, &[0x5a, 0xa5]);
    }
}

fn ntfs_record(flags: u16, attributes: &[Vec<u8>]) -> Vec<u8> {
    let mut data = vec![0u8; 1024];
    put(&mut data, 0, b"FILE");
    put(&mut data, 20, &56u16.to_le_bytes());
    put(&mut data, 22, &flags.to_le_bytes());
    let mut offset: usize = 56;
    for attribute in attributes {
        put(&mut data, offset, attribute);
        offset += attribute.len();
    }
    put(&mut data, offset, &[0xff; 4]);
    protect(&mut data, 48);
    data
}

fn ntfs_index_value(reference: u64, name: &str, name_space: u8, branch: Option<u64>) -> Vec<u8> {
    let mut key: Vec<u8> = Vec::new();
    if !name.is_empty() {
        key = vec![0u8; 66];
        key[64] = name.encode_utf16().count() as u8;
        key[65] = name_space;
        key.extend_from_slice(&utf16_le(name));
    }
    let mut size = (16 + key.len() + 7) / 8 * 8;
    if branch.is_some() {
        size += 8;
    }
    let mut flags: u32 = if name.is_empty() { 2 } else { 0 };
    if branch.is_some() {
        flags |= 1;
    }
    let mut data = vec![0u8; size];
    put(&mut data, 0, &reference.to_le_bytes());
    put(&mut data, 8, &(size as u16).to_le_bytes());
    put(&mut data, 10, &(key.len() as u16).to_le_bytes());
    put(&mut data, 12, &flags.to_le_bytes());
    put(&mut data, 16, &key);
    if let Some(number) = branch {
        put(&mut data, size - 8, &number.to_le_bytes());
    }
    data
}

fn ntfs_index_root(values: &[Vec<u8>]) -> Vec<u8> {
    let mut data = vec![0u8; 32];
    put(&mut data, 0, &0x30u32.to_le_bytes());
    put(&mut data, 4, &1u32.to_le_bytes());
    for value in values {
        data.extend_from_slice(value);
    }
    put(&mut data, 16, &16u32.to_le_bytes());
    let size = (data.len() - 16) as u32;
    put(&mut data, 20, &size.to_le_bytes());
    data
}

fn ntfs_index_block(values: &[Vec<u8>]) -> Vec<u8> {
    let mut data = vec![0u8; 1024];
    put(&mut data, 0, b"INDX");
    let mut offset: usize = 24 + 40;
    for value in values {
        put(&mut data, offset, value);
        offset += value.len();
    }
    put(&mut data, 24, &40u32.to_le_bytes());
    put(&mut data, 28, &((offset - 24) as u32).to_le_bytes());
    protect(&mut data, 40);
    data
}

/// Clusters of 1024 bytes: the boot record, the master file table from cluster 2 on, an index
/// block in cluster 12 and file data in clusters 14 and 16.
fn build_ntfs(branch: u64) -> Vec<u8> {
    let mut image = vec![0u8; 20 * 1024];
    put(&mut image, 3, b"NTFS    ");
    put(&mut image, 11, &512u16.to_le_bytes());
    image[13] = 2;
    put(&mut image, 48, &2u64.to_le_bytes());
    put(&mut image, 64, &1u32.to_le_bytes());
    put(&mut image, 68, &0xf6u32.to_le_bytes());
    put(&mut image, 72, &0x0102_0304_0506_0708u64.to_le_bytes());

    let table = ntfs_stored(0x80, "", 9 * 1024, &[0x11, 9, 2, 0]);
    put(&mut image, 2 * 1024, &ntfs_record(1, &[table]));
    let root = ntfs_record(
        3,
        &[
            ntfs_resident(
                0x90,
                "$I30",
                &ntfs_index_root(&[
                    ntfs_index_value(0x0001_0000_0000_0006, "file", 1, None),
                    ntfs_index_value(7, "FILE~1", 2, None),
                    ntfs_index_value(0, "", 0, Some(branch)),
                ]),
            ),
            ntfs_stored(0xa0, "$I30", 1024, &[0x11, 1, 12, 0]),
        ],
    );
    put(&mut image, (2 + 5) * 1024, &root);
    let file = ntfs_record(1, &[ntfs_resident(0x80, "", b"resident")]);
    put(&mut image, (2 + 6) * 1024, &file);
    // One cluster at 14, a sparse one, and one at 16.
    let file = ntfs_record(
        1,
        &[ntfs_stored(0x80, "", 3000, &[0x11, 1, 14, 0x01, 1, 0x11, 1, 2, 0])],
    );
    put(&mut image, (2 + 8) * 1024, &file);
    let block = ntfs_index_block(&[
        ntfs_index_value(8, "st\u{f6}red", 1, None),
        ntfs_index_value(0, "", 0, None),
    ]);
    put(&mut image, 12 * 1024, &block);
    image[14 * 1024..15 * 1024].fill(b'a');
    image[16 * 1024..17 * 1024].fill(b'b');
    image
}

#[test]
fn ntfs_files() -> Result<(), DriverError> {
    let file_system = NtfsFileSystem::open(memory(&build_ntfs(0)))?;

    assert_eq!(file_system.bytes_per_sector(), 512);
    assert_eq!(file_system.cluster_block_size(), 1024);
    assert_eq!(file_system.mft_entry_size(), 1024);
    assert_eq!(file_system.index_entry_size(), 1024);
    assert_eq!(file_system.volume_serial_number(), 0x0102_0304_0506_0708);

    let root = file_system.root_directory()?;
    assert_eq!(root.entry_number(), 5);
    assert!(root.is_directory());
    assert_eq!(root.name(), None);
    assert!(root.open_source()?.is_none());

    let file = file_system.file_entry_by_path("/file")?.unwrap();
    assert_eq!(file.entry_number(), 6);
    assert_eq!(file.name(), Some("file"));
    assert_eq!(file.size(), 8);
    assert_eq!(file.open_source()?.unwrap().read_all()?, b"resident");

    let stored = file_system.file_entry_by_path("/st\u{f6}red")?.unwrap();
    assert_eq!(stored.entry_number(), 8);
    assert_eq!(stored.size(), 3000);
    let data = stored.open_source()?.unwrap().read_all()?;
    assert_eq!(data.len(), 3000);
    assert!(data[0..1024].iter().all(|value| *value == b'a'));
    assert!(data[1024..2048].iter().all(|value| *value == 0));
    assert!(data[2048..3000].iter().all(|value| *value == b'b'));

    assert!(file_system.file_entry_by_path("/FILE~1")?.is_none());
    assert!(file_system.file_entry_by_path("/File")?.is_none());
    assert!(file_system.file_entry_by_path("file")?.is_none());
    assert!(file_system.file_entry_by_identifier(100).is_err());
    Ok(())
}

#[test]
fn ntfs_fix_up_values_are_checked() -> Result<(), DriverError> {
    let mut image = build_ntfs(0);
    image[(2 + 6) * 1024 + 510] ^= 0xff;
    let file_system = NtfsFileSystem::open(memory(&image))?;

    assert!(file_system.file_entry_by_identifier(6).is_err());
    assert!(file_system.file_entry_by_identifier(8).is_ok());
    Ok(())
}

#[test]
fn ntfs_cyclic_index_is_refused() -> Result<(), DriverError> {
    let mut image = build_ntfs(0);
    let block = ntfs_index_block(&[ntfs_index_value(0, "", 0, Some(0))]);
    put(&mut image, 12 * 1024, &block);
    let file_system = NtfsFileSystem::open(memory(&image))?;

    assert_eq!(
        file_system.file_entry_by_path("/other").err(),
        Some(DriverError::Cycle)
    );
    Ok(())
}

#[test]
fn ntfs_rejects_what_it_cannot_read() {
    assert!(NtfsFileSystem::open(memory(&vec![0u8; 4096])).is_err());
    assert_eq!(
        NtfsFileSystem::open(memory(&vec![0u8; 100])).err(),
        Some(DriverError::Truncated)
    );
}
