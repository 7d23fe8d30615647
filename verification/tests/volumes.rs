//! Volume systems.

use std::sync::Arc;

use keramics_checksums::ReversedCrc32Context;
use keramics_drivers::uuid::Uuid;
use keramics_drivers::volume::{ApmVolumeSystem, GptVolumeSystem};
use keramics_drivers::{
    DataSource, DataSourceCapabilities, DataSourceReference, DriverError, MbrVolumeSystem,
    MemoryDataSource, SharedDataSource,
};

const MBR_BOOT_SIGNATURE: [u8; 2] = [0x55, 0xaa];
const APM_PARTITION_MAP_SIGNATURE: [u8; 2] = *b"PM";
const APM_PARTITION_MAP_TYPE: &str = "Apple_partition_map";
const GPT_SIGNATURE: &[u8; 8] = b"EFI PART";

fn memory(data: Vec<u8>) -> DataSourceReference {
    MemoryDataSource::new(data).into_reference()
}

fn write_mbr_entry(
    data: &mut [u8],
    sector_index: usize,
    entry_index: usize,
    flags: u8,
    partition_type: u8,
    start_lba: u32,
    sector_count: u32,
) {
    let entry_offset = (sector_index * 512) + 446 + (entry_index * 16);
    data[entry_offset] = flags;
    data[entry_offset + 4] = partition_type;
    data[entry_offset + 8..entry_offset + 12].copy_from_slice(&start_lba.to_le_bytes());
    data[entry_offset + 12..entry_offset + 16].copy_from_slice(&sector_count.to_le_bytes());
}

fn write_mbr_signature(data: &mut [u8], sector_index: usize) {
    let signature_offset = (sector_index * 512) + 510;
    data[signature_offset..signature_offset + 2].copy_from_slice(&MBR_BOOT_SIGNATURE);
}

fn build_extended_mbr_data() -> Vec<u8> {
    let mut data = vec![0u8; 64 * 512];

    // Primary MBR with one primary partition and one extended partition.
    write_mbr_entry(&mut data, 0, 0, 0x80, 0x83, 1, 10);
    write_mbr_entry(&mut data, 0, 1, 0x00, 0x0f, 20, 20);
    write_mbr_signature(&mut data, 0);

    // First EBR at sector 20: logical partition at sector 21, next EBR at sector 31.
    write_mbr_entry(&mut data, 20, 0, 0x00, 0x83, 1, 5);
    write_mbr_entry(&mut data, 20, 1, 0x00, 0x05, 11, 9);
    write_mbr_signature(&mut data, 20);

    // Second EBR at sector 31: logical partition at sector 32.
    write_mbr_entry(&mut data, 31, 0, 0x00, 0x07, 1, 3);
    write_mbr_signature(&mut data, 31);

    data
}

#[test]
fn test_extended_partition_chain() -> Result<(), DriverError> {
    let source: DataSourceReference = memory(build_extended_mbr_data());
    let volume_system = MbrVolumeSystem::open_with_bytes_per_sector(&source, 512)?;

    assert_eq!(volume_system.partitions().len(), 3);
    assert_eq!(volume_system.partition(0)?.offset(), 512);
    assert_eq!(volume_system.partition(1)?.offset(), 21 * 512);
    assert_eq!(volume_system.partition(2)?.offset(), 32 * 512);
    Ok(())
}

#[test]
fn mbr_partition_values() -> Result<(), DriverError> {
    let mut data = build_extended_mbr_data();
    data[440..444].copy_from_slice(&0x1234_5678u32.to_le_bytes());
    data[21 * 512] = 0x5a;
    let source = memory(data);
    let volume_system = MbrVolumeSystem::open(&source)?;

    assert_eq!(volume_system.bytes_per_sector(), 512);
    assert_eq!(volume_system.disk_identity(), 0x1234_5678);
    let first = volume_system.partition(0)?;
    assert_eq!(first.entry_index(), 0);
    assert_eq!(first.size(), 10 * 512);
    assert_eq!(first.partition_type(), 0x83);
    assert_eq!(first.flags(), 0x80);
    assert!(first.is_bootable());
    let second = volume_system.partition(1)?;
    assert!(!second.is_bootable());
    let mut byte = [0u8; 1];
    let partition_source = second.open_source(source);
    partition_source.read_exact_at(0, &mut byte)?;
    assert_eq!(byte, [0x5a]);
    assert_eq!(partition_source.size()?, 5 * 512);
    assert!(volume_system.partition(3).is_err());
    Ok(())
}

#[test]
fn mbr_rejects_what_it_cannot_read() {
    let unsigned = memory(vec![0u8; 1024]);
    assert!(MbrVolumeSystem::open_with_bytes_per_sector(&unsigned, 512).is_err());

    let short = memory(vec![0u8; 100]);
    assert_eq!(
        MbrVolumeSystem::open_with_bytes_per_sector(&short, 512).err(),
        Some(DriverError::Truncated)
    );

    let mut overlapping = vec![0u8; 64 * 512];
    write_mbr_entry(&mut overlapping, 0, 0, 0x00, 0x83, 1, 10);
    write_mbr_entry(&mut overlapping, 0, 1, 0x00, 0x83, 5, 10);
    write_mbr_signature(&mut overlapping, 0);
    assert!(MbrVolumeSystem::open_with_bytes_per_sector(&memory(overlapping), 512).is_err());

    assert!(MbrVolumeSystem::open_with_bytes_per_sector(
        &memory(build_extended_mbr_data()),
        513
    )
    .is_err());
}

#[test]
fn mbr_rejects_a_cyclic_chain() {
    let mut data = vec![0u8; 64 * 512];
    write_mbr_entry(&mut data, 0, 0, 0x00, 0x05, 20, 30);
    write_mbr_signature(&mut data, 0);
    write_mbr_entry(&mut data, 20, 0, 0x00, 0x83, 1, 5);
    write_mbr_entry(&mut data, 20, 1, 0x00, 0x05, 10, 5);
    write_mbr_signature(&mut data, 20);
    write_mbr_entry(&mut data, 30, 0, 0x00, 0x83, 1, 3);
    write_mbr_entry(&mut data, 30, 1, 0x00, 0x05, 10, 5);
    write_mbr_signature(&mut data, 30);

    assert!(MbrVolumeSystem::open_with_bytes_per_sector(&memory(data), 512).is_err());
}

fn write_string(target: &mut [u8], value: &str) {
    let bytes = value.as_bytes();
    let copy_size = bytes.len().min(target.len());

    target[..copy_size].copy_from_slice(&bytes[..copy_size]);
}

struct EntrySpec<'a> {
    entry_index: usize,
    number_of_entries: u32,
    start_sector: u32,
    number_of_sectors: u32,
    name: &'a str,
    type_identifier: &'a str,
    status_flags: u32,
}

fn write_apm_entry(data: &mut [u8], spec: &EntrySpec<'_>) {
    let offset = 512 + (spec.entry_index * 512);

    data[offset..offset + 2].copy_from_slice(&APM_PARTITION_MAP_SIGNATURE);
    data[offset + 4..offset + 8].copy_from_slice(&spec.number_of_entries.to_be_bytes());
    data[offset + 8..offset + 12].copy_from_slice(&spec.start_sector.to_be_bytes());
    data[offset + 12..offset + 16].copy_from_slice(&spec.number_of_sectors.to_be_bytes());
    write_string(&mut data[offset + 16..offset + 48], spec.name);
    write_string(&mut data[offset + 48..offset + 80], spec.type_identifier);
    data[offset + 88..offset + 92].copy_from_slice(&spec.status_flags.to_be_bytes());
}

fn build_apm_data() -> Vec<u8> {
    let mut data = vec![0u8; 64 * 512];

    write_apm_entry(
        &mut data,
        &EntrySpec {
            entry_index: 0,
            number_of_entries: 3,
            start_sector: 1,
            number_of_sectors: 3,
            name: "partition_map",
            type_identifier: APM_PARTITION_MAP_TYPE,
            status_flags: 0,
        },
    );
    write_apm_entry(
        &mut data,
        &EntrySpec {
            entry_index: 1,
            number_of_entries: 3,
            start_sector: 10,
            number_of_sectors: 4,
            name: "MyHFS",
            type_identifier: "Apple_HFS",
            status_flags: 0x0000_007f,
        },
    );
    write_apm_entry(
        &mut data,
        &EntrySpec {
            entry_index: 2,
            number_of_entries: 3,
            start_sector: 20,
            number_of_sectors: 8,
            name: "Extra",
            type_identifier: "Apple_Free",
            status_flags: 0,
        },
    );

    data
}

#[test]
fn test_open_synthetic_partition_map() -> Result<(), DriverError> {
    let source: DataSourceReference = memory(build_apm_data());
    let volume_system = ApmVolumeSystem::open(&source)?;
    let partition = volume_system.partition(0)?;

    assert_eq!(volume_system.partitions().len(), 2);
    assert_eq!(partition.name(), "MyHFS");
    assert_eq!(partition.type_identifier(), "Apple_HFS");
    assert_eq!(partition.status_flags(), 0x0000_007f);
    Ok(())
}

#[test]
fn apm_partition_values() -> Result<(), DriverError> {
    let mut data = build_apm_data();
    data[20 * 512] = 0x77;
    let source = memory(data);
    let volume_system = ApmVolumeSystem::open(&source)?;
    let partition = volume_system.partition(1)?;

    assert_eq!(volume_system.bytes_per_sector(), 512);
    assert_eq!(partition.entry_index(), 1);
    assert_eq!(partition.offset(), 20 * 512);
    assert_eq!(partition.size(), 8 * 512);
    assert_eq!(partition.open_source(source).read_all()?[0], 0x77);
    assert!(volume_system.partition(2).is_err());
    Ok(())
}

#[test]
fn apm_rejects_what_it_cannot_read() {
    assert!(ApmVolumeSystem::open(&memory(vec![0u8; 64 * 512])).is_err());
    assert_eq!(
        ApmVolumeSystem::open(&memory(vec![0u8; 600])).err(),
        Some(DriverError::Truncated)
    );
}

fn reversed_crc32(data: &[u8]) -> u32 {
    let mut context = ReversedCrc32Context::new(0xedb8_8320, 0);
    context.update(data);
    context.finalize()
}

fn uuid_to_le_bytes(uuid: &Uuid) -> [u8; 16] {
    let mut data = [0u8; 16];

    data[0..4].copy_from_slice(&uuid.part1.to_le_bytes());
    data[4..6].copy_from_slice(&uuid.part2.to_le_bytes());
    data[6..8].copy_from_slice(&uuid.part3.to_le_bytes());
    data[8..10].copy_from_slice(&uuid.part4.to_be_bytes());
    data[10..12].copy_from_slice(&((uuid.part5 >> 32) as u16).to_be_bytes());
    data[12..16].copy_from_slice(&(uuid.part5 as u32).to_be_bytes());
    data
}

struct HeaderSpec<'a> {
    current_lba: u64,
    backup_lba: u64,
    first_usable_lba: u64,
    last_usable_lba: u64,
    disk_guid: &'a Uuid,
    entries_start_lba: u64,
    entry_count: u32,
    entry_data_size: u32,
    entries_checksum: u32,
}

fn write_gpt_header(
    data: &mut [u8],
    offset: usize,
    bytes_per_sector: usize,
    spec: &HeaderSpec<'_>,
) {
    let mut header = vec![0u8; bytes_per_sector];
    header[0..8].copy_from_slice(GPT_SIGNATURE);
    header[8..12].copy_from_slice(&0x0001_0000u32.to_le_bytes());
    header[12..16].copy_from_slice(&92u32.to_le_bytes());
    header[24..32].copy_from_slice(&spec.current_lba.to_le_bytes());
    header[32..40].copy_from_slice(&spec.backup_lba.to_le_bytes());
    header[40..48].copy_from_slice(&spec.first_usable_lba.to_le_bytes());
    header[48..56].copy_from_slice(&spec.last_usable_lba.to_le_bytes());
    header[56..72].copy_from_slice(&uuid_to_le_bytes(spec.disk_guid));
    header[72..80].copy_from_slice(&spec.entries_start_lba.to_le_bytes());
    header[80..84].copy_from_slice(&spec.entry_count.to_le_bytes());
    header[84..88].copy_from_slice(&spec.entry_data_size.to_le_bytes());
    header[88..92].copy_from_slice(&spec.entries_checksum.to_le_bytes());

    let mut checksum_header = header[..92].to_vec();
    checksum_header[16..20].fill(0);
    let checksum = reversed_crc32(&checksum_header);
    header[16..20].copy_from_slice(&checksum.to_le_bytes());

    data[offset..offset + bytes_per_sector].copy_from_slice(&header);
}

fn build_gpt_data(bytes_per_sector: u16) -> Vec<u8> {
    let bytes_per_sector = bytes_per_sector as usize;
    let total_sectors = 64usize;
    let mut data = vec![0u8; total_sectors * bytes_per_sector];
    let first_usable_lba = 6u64;
    let last_usable_lba = 62u64;
    let backup_header_lba = 63u64;
    let entries_start_lba = 2u64;
    let entry_data_size = 128u32;
    let entry_count = 4u32;
    let entries_size = (entry_data_size * entry_count) as usize;

    let type_guid = Uuid::from_string("0fc63daf-8483-4772-8e79-3d69d8477de4").unwrap();
    let part_guid = Uuid::from_string("1e25588c-27a9-4094-868c-2f257021f87b").unwrap();
    let disk_guid = Uuid::from_string("e86e657a-d840-4c09-afe3-a1a5f665cf44").unwrap();

    let entries_offset = entries_start_lba as usize * bytes_per_sector;
    let mut entry = vec![0u8; entry_data_size as usize];
    entry[0..16].copy_from_slice(&uuid_to_le_bytes(&type_guid));
    entry[16..32].copy_from_slice(&uuid_to_le_bytes(&part_guid));
    entry[32..40].copy_from_slice(&8u64.to_le_bytes());
    entry[40..48].copy_from_slice(&15u64.to_le_bytes());
    entry[48..56].copy_from_slice(&0u64.to_le_bytes());
    let mut name_bytes = [0u8; 72];
    for (index, value) in "gpt_test".encode_utf16().enumerate() {
        name_bytes[index * 2..index * 2 + 2].copy_from_slice(&value.to_le_bytes());
    }
    entry[56..128].copy_from_slice(&name_bytes);

    data[entries_offset..entries_offset + entry.len()].copy_from_slice(&entry);
    let entries_checksum = reversed_crc32(&data[entries_offset..entries_offset + entries_size]);

    let primary_header = HeaderSpec {
        current_lba: 1,
        backup_lba: backup_header_lba,
        first_usable_lba,
        last_usable_lba,
        disk_guid: &disk_guid,
        entries_start_lba,
        entry_count,
        entry_data_size,
        entries_checksum,
    };
    let backup_header = HeaderSpec {
        current_lba: backup_header_lba,
        backup_lba: 1,
        first_usable_lba,
        last_usable_lba,
        disk_guid: &disk_guid,
        entries_start_lba,
        entry_count,
        entry_data_size,
        entries_checksum,
    };

    write_gpt_header(
        &mut data,
        bytes_per_sector,
        bytes_per_sector,
        &primary_header,
    );
    write_gpt_header(
        &mut data,
        backup_header_lba as usize * bytes_per_sector,
        bytes_per_sector,
        &backup_header,
    );

    data
}

#[test]
fn test_open_with_4096_byte_sectors() -> Result<(), DriverError> {
    let source: DataSourceReference = memory(build_gpt_data(4096));
    let volume_system = GptVolumeSystem::open_with_bytes_per_sector(&source, 4096)?;
    let partition = volume_system.partition(0)?;

    assert_eq!(volume_system.bytes_per_sector(), 4096);
    assert_eq!(partition.offset(), 8 * 4096);
    assert_eq!(partition.size(), 8 * 4096);
    assert_eq!(partition.name(), "gpt_test");
    Ok(())
}

#[test]
fn gpt_partition_values() -> Result<(), DriverError> {
    let mut data = build_gpt_data(512);
    data[8 * 512 + 1] = 0x99;
    let source = memory(data);
    let volume_system = GptVolumeSystem::open(&source)?;

    assert_eq!(volume_system.bytes_per_sector(), 512);
    assert_eq!(volume_system.partitions().len(), 1);
    assert_eq!(
        volume_system.disk_identifier().to_string(),
        "e86e657a-d840-4c09-afe3-a1a5f665cf44"
    );
    let partition = volume_system.partition(0)?;
    assert_eq!(partition.entry_index(), 0);
    assert_eq!(partition.attribute_flags(), 0);
    assert_eq!(
        partition.type_identifier().to_string(),
        "0fc63daf-8483-4772-8e79-3d69d8477de4"
    );
    assert_eq!(
        partition.identifier().to_string(),
        "1e25588c-27a9-4094-868c-2f257021f87b"
    );
    assert_eq!(partition.open_source(source).read_all()?[1], 0x99);
    assert!(volume_system.partition(1).is_err());
    Ok(())
}

#[test]
fn gpt_rejects_a_damaged_header() {
    let mut data = build_gpt_data(512);
    data[512 + 60] ^= 0xff;

    assert_eq!(
        GptVolumeSystem::open_with_bytes_per_sector(&memory(data), 512).err(),
        Some(DriverError::ChecksumMismatch)
    );
}

#[test]
fn gpt_rejects_damaged_entries() {
    let mut data = build_gpt_data(512);
    data[2 * 512 + 56] ^= 0x01;

    assert!(GptVolumeSystem::open_with_bytes_per_sector(&memory(data), 512).is_err());
    assert!(GptVolumeSystem::open(&memory(vec![0u8; 64 * 512])).is_err());
}

struct TricklingSource {
    data: Vec<u8>,
}

impl DataSource for TricklingSource {
    fn read_at(&self, offset: u64, buf: &mut [u8]) -> Result<usize, DriverError> {
        let start = self.data.len().min(offset as usize);
        let count = buf.len().min(7).min(self.data.len() - start);
        buf[..count].copy_from_slice(&self.data[start..start + count]);
        Ok(count)
    }

    fn size(&self) -> Result<u64, DriverError> {
        Ok(self.data.len() as u64)
    }

    fn capabilities(&self) -> DataSourceCapabilities {
        DataSourceCapabilities::default()
    }

    fn telemetry_name(&self) -> &'static str {
        "trickling"
    }

    fn origin_path(&self) -> Option<&str> {
        None
    }
}

#[test]
fn volumes_are_read_from_short_reads() -> Result<(), DriverError> {
    let data = build_extended_mbr_data();
    let source: DataSourceReference = Arc::new(SharedDataSource {
        inner: Box::new(TricklingSource { data: data.clone() }),
    });
    let volume = MbrVolumeSystem::open(&source)?;
    let expected = MbrVolumeSystem::open(&memory(data))?;

    assert_eq!(volume.bytes_per_sector(), 512);
    assert_eq!(volume.partitions().len(), expected.partitions().len());
    Ok(())
}
