//! Storage media images.

use std::sync::Arc;

use keramics_checksums::{Adler32Context, ReversedCrc32Context};
use keramics_drivers::image::ewf::naming::{
    get_segment_file_extension, get_segment_file_name, get_segment_file_naming_schema,
    EwfNamingSchema,
};
use keramics_drivers::image::splitraw::SplitRawNamingSchema;
use keramics_drivers::image::vmdk::descriptor::{read_descriptor, VmdkDescriptorExtentType};
use keramics_drivers::image::{
    EwfImage, EwfMediaType, PdiImage, QcowCompressionMethod, QcowEncryptionMethod, QcowFile,
    SparseBundleImage, SparseImageFile, SplitRawImage, UdifCompressionMethod, UdifFile,
    VhdDiskType, VhdFile, VhdxFile, VmdkCompressionMethod, VmdkDiskType, VmdkFile,
};
use keramics_drivers::uuid::Uuid;
use keramics_drivers::{
    DataSource, DataSourceCapabilities, DataSourceReadConcurrency, DataSourceReference,
    DataSourceSeekCost, DriverError, MemoryDataSource, SharedDataSource, SharedSourceResolver,
    SourceResolver, SourceResolverReference,
};

fn memory(data: Vec<u8>) -> DataSourceReference {
    MemoryDataSource::new(data).into_reference()
}

fn chars(text: &str) -> Vec<char> {
    text.chars().collect()
}

struct MapResolver {
    files: Vec<(&'static str, Vec<u8>)>,
}

impl SourceResolver for MapResolver {
    fn open_source(&self, relative_path: &str) -> Result<Option<DataSourceReference>, DriverError> {
        for (name, data) in self.files.iter() {
            if *name == relative_path {
                return Ok(Some(memory(data.clone())));
            }
        }
        Ok(None)
    }
}

fn resolver(files: Vec<(&'static str, Vec<u8>)>) -> SourceResolverReference {
    Arc::new(SharedSourceResolver {
        inner: Box::new(MapResolver { files }),
    })
}

fn put(data: &mut [u8], offset: usize, bytes: &[u8]) {
    data[offset..offset + bytes.len()].copy_from_slice(bytes);
}

// EWF

#[test]
fn test_get_segment_file_extension() -> Result<(), DriverError> {
    assert_eq!(
        get_segment_file_extension(1, EwfNamingSchema::E01Upper)?,
        chars("E01")
    );
    assert_eq!(
        get_segment_file_extension(99, EwfNamingSchema::E01Upper)?,
        chars("E99")
    );
    assert_eq!(
        get_segment_file_extension(100, EwfNamingSchema::E01Upper)?,
        chars("EAA")
    );
    assert_eq!(
        get_segment_file_extension(14971, EwfNamingSchema::E01Upper)?,
        chars("ZZZ")
    );
    assert!(get_segment_file_extension(14972, EwfNamingSchema::E01Upper).is_err());
    assert_eq!(
        get_segment_file_extension(1, EwfNamingSchema::S01Lower)?,
        chars("s01")
    );

    Ok(())
}

#[test]
fn mod_test_get_segment_file_name() -> Result<(), DriverError> {
    let name = get_segment_file_name(&chars("image"), 1, EwfNamingSchema::E01Upper)?;
    assert_eq!(name, "image.E01");

    let name = SplitRawImage::get_segment_file_name(
        &chars("image"),
        1,
        99,
        SplitRawNamingSchema::Alphabetic,
        0,
        2,
    )?;
    assert_eq!(name, "imageaa");

    let name = SplitRawImage::get_segment_file_name(
        &chars("image"),
        1,
        99,
        SplitRawNamingSchema::Numeric,
        1,
        1,
    )?;
    assert_eq!(name, "image1");

    let name = SplitRawImage::get_segment_file_name(
        &chars("image."),
        1,
        99,
        SplitRawNamingSchema::Numeric,
        1,
        3,
    )?;
    assert_eq!(name, "image.001");

    let name = SplitRawImage::get_segment_file_name(
        &chars("image."),
        1,
        99,
        SplitRawNamingSchema::XOfN,
        1,
        1,
    )?;
    assert_eq!(name, "image.1of99");

    assert!(SplitRawImage::get_segment_file_name(
        &chars("image"),
        0,
        99,
        SplitRawNamingSchema::Numeric,
        1,
        1,
    )
    .is_err());

    Ok(())
}

#[test]
fn mod_test_get_segment_file_naming_schema() -> Result<(), DriverError> {
    assert_eq!(
        get_segment_file_naming_schema("image.E01")?,
        EwfNamingSchema::E01Upper
    );
    assert_eq!(
        get_segment_file_naming_schema("image.e01")?,
        EwfNamingSchema::E01Lower
    );
    assert_eq!(
        get_segment_file_naming_schema("image.S01")?,
        EwfNamingSchema::S01Upper
    );
    assert!(get_segment_file_naming_schema("image.raw").is_err());

    assert_eq!(
        SplitRawImage::get_segment_file_naming_schema("imageaa"),
        Some(SplitRawNamingSchema::Alphabetic)
    );
    assert_eq!(
        SplitRawImage::get_segment_file_naming_schema("image1"),
        Some(SplitRawNamingSchema::Numeric)
    );
    assert_eq!(
        SplitRawImage::get_segment_file_naming_schema("image001"),
        Some(SplitRawNamingSchema::Numeric)
    );
    assert_eq!(
        SplitRawImage::get_segment_file_naming_schema("image.1of5"),
        Some(SplitRawNamingSchema::XOfN)
    );
    assert_eq!(SplitRawImage::get_segment_file_naming_schema("image"), None);
    assert_eq!(
        SplitRawImage::get_segment_file_naming_schema("imageab"),
        None
    );
    assert_eq!(
        SplitRawImage::get_segment_file_naming_schema("image2"),
        None
    );
    assert_eq!(
        SplitRawImage::get_segment_file_naming_schema("image.raw"),
        None
    );
    assert_eq!(
        SplitRawImage::get_segment_file_naming_schema("image.2of5"),
        None
    );
    Ok(())
}

fn adler32(data: &[u8]) -> u32 {
    let mut context = Adler32Context::new(1);
    context.update(data);
    context.finalize()
}

fn zlib_stored(data: &[u8]) -> Vec<u8> {
    let size = data.len() as u16;
    let mut result: Vec<u8> = vec![0x78, 0x01, 0x01];
    result.extend_from_slice(&size.to_le_bytes());
    result.extend_from_slice(&(!size).to_le_bytes());
    result.extend_from_slice(data);
    result.extend_from_slice(&adler32(data).to_be_bytes());
    result
}

fn append_section(file: &mut Vec<u8>, kind: &str, data: &[u8]) {
    let offset = file.len() as u64;
    let is_end = kind == "done" || kind == "next";
    let size = 76 + data.len() as u64;
    let mut header = vec![0u8; 76];
    put(&mut header, 0, kind.as_bytes());
    let next_offset = if is_end { offset } else { offset + size };
    put(&mut header, 16, &next_offset.to_le_bytes());
    put(&mut header, 24, &size.to_le_bytes());
    let checksum = adler32(&header[0..72]);
    put(&mut header, 72, &checksum.to_le_bytes());
    file.extend_from_slice(&header);
    file.extend_from_slice(data);
}

fn ewf_file_header(segment_number: u16) -> Vec<u8> {
    let mut file: Vec<u8> = b"EVF\x09\x0d\x0a\xff\x00\x01".to_vec();
    file.extend_from_slice(&segment_number.to_le_bytes());
    file.extend_from_slice(&[0, 0]);
    file
}

fn ewf_volume(number_of_chunks: u32, sectors_per_chunk: u32, number_of_sectors: u64) -> Vec<u8> {
    let mut data = vec![0u8; 1052];
    data[0] = 1;
    put(&mut data, 4, &number_of_chunks.to_le_bytes());
    put(&mut data, 8, &sectors_per_chunk.to_le_bytes());
    put(&mut data, 12, &512u32.to_le_bytes());
    put(&mut data, 16, &number_of_sectors.to_le_bytes());
    data[64] = 0x5a;
    let checksum = adler32(&data[0..1048]);
    put(&mut data, 1048, &checksum.to_le_bytes());
    data
}

fn ewf_table(base_offset: u64, entries: &[u32]) -> Vec<u8> {
    let mut data = vec![0u8; 24];
    put(&mut data, 0, &(entries.len() as u32).to_le_bytes());
    put(&mut data, 8, &base_offset.to_le_bytes());
    let checksum = adler32(&data[0..20]);
    put(&mut data, 20, &checksum.to_le_bytes());
    let mut numbers: Vec<u8> = Vec::new();
    for entry in entries {
        numbers.extend_from_slice(&entry.to_le_bytes());
    }
    data.extend_from_slice(&numbers);
    data.extend_from_slice(&adler32(&numbers).to_le_bytes());
    data
}

fn ewf_media() -> Vec<u8> {
    (0..2560u32).map(|value| (value % 241) as u8).collect()
}

/// An image of three chunks of two sectors, the last with one sector, in two segments.
fn build_ewf_segments() -> (Vec<u8>, Vec<u8>) {
    let media = ewf_media();
    let mut first = ewf_file_header(1);
    append_section(&mut first, "volume", &ewf_volume(3, 2, 5));
    let compressed = zlib_stored(&media[0..1024]);
    let sectors_offset = first.len() as u32 + 76;
    let mut sectors = compressed.clone();
    sectors.extend_from_slice(&media[1024..2048]);
    append_section(&mut first, "sectors", &sectors);
    append_section(
        &mut first,
        "table",
        &ewf_table(
            0,
            &[
                0x8000_0000 | sectors_offset,
                sectors_offset + compressed.len() as u32,
            ],
        ),
    );
    append_section(&mut first, "next", &[]);

    let mut second = ewf_file_header(2);
    let sectors_offset = second.len() as u64 + 76;
    append_section(&mut second, "sectors", &zlib_stored(&media[2048..2560]));
    append_section(&mut second, "table", &ewf_table(sectors_offset, &[0x8000_0000]));
    let mut hash = vec![0x11u8; 32];
    hash.extend_from_slice(&adler32(&[0x11u8; 32]).to_le_bytes());
    append_section(&mut second, "hash", &hash);
    let mut digest = vec![0x22u8; 76];
    digest.extend_from_slice(&adler32(&[0x22u8; 76]).to_le_bytes());
    append_section(&mut second, "digest", &digest);
    append_section(&mut second, "done", &[]);
    (first, second)
}

#[test]
fn ewf_image_over_two_segments() -> Result<(), DriverError> {
    let (first, second) = build_ewf_segments();
    let resolver = resolver(vec![("image.E01", first), ("image.E02", second)]);
    let image = EwfImage::open(&resolver, "image.E01")?;

    assert_eq!(image.media_type(), EwfMediaType::FixedDisk);
    assert_eq!(image.set_identifier().part1, 0x5a);
    assert_eq!(image.number_of_segments(), 2);
    assert_eq!(image.segment_file_names(), vec!["image.E01", "image.E02"]);
    assert_eq!(image.number_of_chunks(), 3);
    assert_eq!(image.sectors_per_chunk(), 2);
    assert_eq!(image.bytes_per_sector(), 512);
    assert_eq!(image.number_of_sectors(), 5);
    assert_eq!(image.chunk_size(), 1024);
    assert_eq!(image.media_size(), 2560);
    assert_eq!(image.md5_hash(), Some(&[0x22u8; 16]));
    assert_eq!(image.sha1_hash(), Some(&[0x22u8; 20]));

    let source = image.open_source();
    assert_eq!(source.read_all()?, ewf_media());
    let mut part = vec![0u8; 6];
    source.read_exact_at(2045, &mut part)?;
    assert_eq!(part, &ewf_media()[2045..2051]);
    assert_eq!(source.telemetry_name(), "ewf");
    let capabilities = source.capabilities();
    assert_eq!(capabilities.seek_cost, DataSourceSeekCost::Expensive);
    assert_eq!(
        capabilities.read_concurrency,
        DataSourceReadConcurrency::Concurrent
    );
    assert_eq!(capabilities.preferred_chunk_size, Some(1024));
    Ok(())
}

#[test]
fn ewf_rejects_what_it_cannot_read() {
    let (first, second) = build_ewf_segments();
    let missing = resolver(vec![("image.E01", first.clone())]);
    assert_eq!(
        EwfImage::open(&missing, "image.E01").err(),
        Some(DriverError::Missing)
    );

    let mut damaged = first.clone();
    damaged[20] ^= 0xff;
    let damaged = resolver(vec![("image.E01", damaged), ("image.E02", second)]);
    assert_eq!(
        EwfImage::open(&damaged, "image.E01").err(),
        Some(DriverError::ChecksumMismatch)
    );

    let twice = resolver(vec![("image.E01", first.clone()), ("image.E02", first)]);
    assert!(EwfImage::open(&twice, "image.E01").is_err());
    assert!(EwfImage::open(&twice, "image.raw").is_err());
}

// Sparse bundle

fn sparse_bundle_files() -> Vec<(&'static str, Vec<u8>)> {
    let info = r#"<?xml version="1.0" encoding="UTF-8"?>
<plist version="1.0"><dict>
<key>CFBundleInfoDictionaryVersion</key><string>6.0</string>
<key>band-size</key><integer>4</integer>
<key>diskimage-bundle-type</key><string>com.apple.diskimage.sparsebundle</string>
<key>size</key><integer>12</integer>
</dict></plist>"#;
    vec![
        ("Info.plist", info.as_bytes().to_vec()),
        ("bands/0", b"abcd".to_vec()),
        ("bands/2", b"xy".to_vec()),
    ]
}

#[test]
fn test_open_source_uses_zero_fill_for_missing_bands() -> Result<(), DriverError> {
    let resolver = resolver(sparse_bundle_files());
    let image = SparseBundleImage::open(&resolver)?;
    let source = image.open_source()?;
    let data = source.read_all()?;

    assert_eq!(image.number_of_bands(), 3);
    assert_eq!(data, b"abcd\0\0\0\0xy\0\0");
    Ok(())
}

#[test]
fn sparse_bundle_values() -> Result<(), DriverError> {
    let image = SparseBundleImage::open(&resolver(sparse_bundle_files()))?;

    assert_eq!(image.band_size(), 4);
    assert_eq!(image.media_size(), 12);
    assert_eq!(
        image.band_file_names(),
        vec!["bands/0", "bands/1", "bands/2"]
    );
    Ok(())
}

#[test]
fn sparse_bundle_needs_its_information() {
    assert_eq!(
        SparseBundleImage::open(&resolver(vec![])).err(),
        Some(DriverError::Missing)
    );
    assert!(SparseBundleImage::open(&resolver(vec![(
        "Info.plist",
        b"<plist><dict></dict></plist>".to_vec()
    )]))
    .is_err());
}

// Sparse image

const SPARSEIMAGE_HEADER_DATA_SIZE: usize = 64;
const SPARSEIMAGE_HEADER_BLOCK_SIZE: usize = 4096;

fn build_sparseimage_data() -> Vec<u8> {
    let sectors_per_band = 2u32;
    let bytes_per_sector = 512u32;
    let band_size = sectors_per_band * bytes_per_sector;
    let number_of_sectors = 6u32;
    let band_numbers = [2u32, 0, 1];
    let mut data =
        vec![0u8; SPARSEIMAGE_HEADER_BLOCK_SIZE + (band_numbers.len() * band_size as usize)];

    data[0..4].copy_from_slice(b"sprs");
    data[4..8].copy_from_slice(&3u32.to_be_bytes());
    data[8..12].copy_from_slice(&sectors_per_band.to_be_bytes());
    data[16..20].copy_from_slice(&number_of_sectors.to_be_bytes());

    for (array_index, band_number) in band_numbers.iter().enumerate() {
        let offset = SPARSEIMAGE_HEADER_DATA_SIZE + (array_index * 4);
        data[offset..offset + 4].copy_from_slice(&band_number.to_be_bytes());
    }

    let first_slot_offset = SPARSEIMAGE_HEADER_BLOCK_SIZE;
    let third_slot_offset = SPARSEIMAGE_HEADER_BLOCK_SIZE + (2 * band_size as usize);

    data[first_slot_offset..first_slot_offset + band_size as usize].fill(b'B');
    data[third_slot_offset..third_slot_offset + band_size as usize].fill(b'A');

    data
}

#[test]
fn test_open_source_uses_band_mapping_and_zero_fill() -> Result<(), DriverError> {
    let source: DataSourceReference = memory(build_sparseimage_data());
    let file = SparseImageFile::open(source)?;
    let logical_source = file.open_source()?;
    let data = logical_source.read_all()?;

    assert_eq!(file.band_numbers(), &[2, 0, 1]);
    assert_eq!(&data[0..4], b"AAAA");
    assert_eq!(&data[1024..1028], b"BBBB");
    assert_eq!(&data[2048..2052], &[0, 0, 0, 0]);
    Ok(())
}

#[test]
fn sparse_image_values() -> Result<(), DriverError> {
    let file = SparseImageFile::open(memory(build_sparseimage_data()))?;

    assert_eq!(file.bytes_per_sector(), 512);
    assert_eq!(file.band_size(), 1024);
    assert_eq!(file.media_size(), 3072);
    assert_eq!(file.number_of_bands(), 3);
    assert!(SparseImageFile::open(memory(vec![0u8; 8192])).is_err());
    assert_eq!(
        SparseImageFile::open(memory(vec![0u8; 10])).err(),
        Some(DriverError::Truncated)
    );
    Ok(())
}

// Split raw

#[test]
fn test_open_with_xofn_layout() -> Result<(), DriverError> {
    let resolver = resolver(vec![
        ("image.1of2", b"abc".to_vec()),
        ("image.2of2", b"defg".to_vec()),
    ]);
    let image = SplitRawImage::open(&resolver, "image.1of2")?;
    let source = image.open_source()?;
    let data = source.read_all()?;

    assert_eq!(image.number_of_segments(), 2);
    assert_eq!(data, b"abcdefg");
    Ok(())
}

#[test]
fn split_raw_reads_across_a_segment_boundary() -> Result<(), DriverError> {
    let resolver = resolver(vec![
        ("image.raw.000", vec![1u8; 512]),
        ("image.raw.001", vec![2u8; 512]),
        ("image.raw.002", vec![3u8; 100]),
    ]);
    let image = SplitRawImage::open(&resolver, "image.raw.000")?;
    let source = image.open_source()?;
    let mut actual = vec![0; 4];

    assert_eq!(image.media_size(), 1124);
    assert_eq!(image.segment_size(), 512);
    assert_eq!(
        image.segment_file_names(),
        vec!["image.raw.000", "image.raw.001", "image.raw.002"]
    );
    source.read_exact_at(image.segment_size() - 2, &mut actual)?;
    assert_eq!(actual, vec![1, 1, 2, 2]);
    assert_eq!(
        source.capabilities().read_concurrency,
        DataSourceReadConcurrency::Concurrent
    );
    assert_eq!(source.capabilities().seek_cost, DataSourceSeekCost::Cheap);
    Ok(())
}

#[test]
fn split_raw_needs_its_first_segment() {
    assert!(SplitRawImage::open(&resolver(vec![]), "image.000").is_err());
    assert!(SplitRawImage::open(&resolver(vec![("image", vec![0; 4])]), "image").is_err());
}

// QCOW

fn build_qcow() -> Vec<u8> {
    let cluster_size = 512usize;
    let mut data = vec![0u8; 6 * cluster_size];
    put(&mut data, 0, b"QFI\xfb");
    put(&mut data, 4, &3u32.to_be_bytes());
    put(&mut data, 20, &9u32.to_be_bytes());
    put(&mut data, 24, &1800u64.to_be_bytes());
    put(&mut data, 36, &1u32.to_be_bytes());
    put(&mut data, 40, &512u64.to_be_bytes());
    put(&mut data, 100, &104u32.to_be_bytes());
    put(&mut data, 512, &(0x8000_0000_0000_0000u64 | 1024).to_be_bytes());
    put(&mut data, 1024, &(0x8000_0000_0000_0000u64 | 1536).to_be_bytes());
    put(&mut data, 1024 + 16, &2560u64.to_be_bytes());
    data[1536..2048].fill(0x61);
    data[2560..3072].fill(0x62);
    data
}

#[test]
fn qcow_maps_its_clusters() -> Result<(), DriverError> {
    let file = QcowFile::open(memory(build_qcow()))?;

    assert_eq!(file.format_version(), 3);
    assert_eq!(file.bytes_per_sector(), 512);
    assert_eq!(file.header_size(), 104);
    assert_eq!(file.cluster_block_size(), 512);
    assert_eq!(file.compression_method(), QcowCompressionMethod::Zlib);
    assert_eq!(file.encryption_method(), QcowEncryptionMethod::Unencrypted);
    assert_eq!(file.media_size(), 1800);
    let data = file.open_source().read_all()?;
    assert_eq!(data.len(), 1800);
    assert!(data[0..512].iter().all(|value| *value == 0x61));
    assert!(data[512..1024].iter().all(|value| *value == 0));
    assert!(data[1024..1536].iter().all(|value| *value == 0x62));
    assert!(data[1536..1800].iter().all(|value| *value == 0));
    Ok(())
}

#[test]
fn qcow_rejects_what_it_cannot_read() {
    let mut data = build_qcow();
    put(&mut data, 4, &2u32.to_be_bytes());
    assert_eq!(
        QcowFile::open(memory(data)).err(),
        Some(DriverError::Unsupported)
    );

    let mut compressed = build_qcow();
    put(&mut compressed, 1024, &(0x4000_0000_0000_0000u64 | 1536).to_be_bytes());
    assert_eq!(
        QcowFile::open(memory(compressed)).err(),
        Some(DriverError::Unsupported)
    );

    let mut outside = build_qcow();
    put(&mut outside, 1024, &1_000_000u64.to_be_bytes());
    assert!(QcowFile::open(memory(outside)).is_err());

    let mut many = build_qcow();
    put(&mut many, 24, &1_000_000u64.to_be_bytes());
    assert!(QcowFile::open(memory(many)).is_err());

    assert_eq!(
        QcowFile::open(memory(vec![0u8; 50])).err(),
        Some(DriverError::Truncated)
    );
}

// VHD

fn vhd_footer(disk_type: u32, next_offset: u64, size: u64, identifier: u8) -> Vec<u8> {
    let mut data = vec![0u8; 512];
    put(&mut data, 0, b"conectix");
    put(&mut data, 12, &0x0001_0000u32.to_be_bytes());
    put(&mut data, 16, &next_offset.to_be_bytes());
    put(&mut data, 40, &size.to_be_bytes());
    put(&mut data, 60, &disk_type.to_be_bytes());
    data[68..84].fill(identifier);
    data
}

const VHD_BLOCK: usize = 2 * 1048576;

fn build_vhd(disk_type: u32, identifier: u8, parent: u8, bitmap: [u8; 2], fill: u8) -> Vec<u8> {
    // The footer copy, the dynamic header, the block table and one block with its bitmap.
    let mut data = vec![0u8; 512 + 1024 + 512];
    put(&mut data, 512, b"cxsparse");
    put(&mut data, 520, &u64::MAX.to_be_bytes());
    put(&mut data, 528, &1536u64.to_be_bytes());
    put(&mut data, 536, &0x0001_0000u32.to_be_bytes());
    put(&mut data, 540, &2u32.to_be_bytes());
    put(&mut data, 544, &(VHD_BLOCK as u32).to_be_bytes());
    data[552..568].fill(parent);
    if parent != 0 {
        put(&mut data, 576, &[0, b'p', 0, b'.', 0, b'v']);
    }
    put(&mut data, 1536, &4u32.to_be_bytes());
    put(&mut data, 1540, &u32::MAX.to_be_bytes());
    let mut bitmap_data = vec![bitmap[1]; 512];
    bitmap_data[0] = bitmap[0];
    data.extend_from_slice(&bitmap_data);
    data.extend_from_slice(&vec![fill; VHD_BLOCK]);
    data.extend_from_slice(&vhd_footer(disk_type, 512, 2 * VHD_BLOCK as u64, identifier));
    data
}

#[test]
fn vhd_fixed_disk() -> Result<(), DriverError> {
    let mut data: Vec<u8> = (0..1024u32).map(|value| value as u8).collect();
    data.extend_from_slice(&vhd_footer(2, u64::MAX, 1024, 7));
    let file = VhdFile::open(memory(data.clone()))?;

    assert_eq!(file.disk_type(), VhdDiskType::Fixed);
    assert_eq!(file.media_size(), 1024);
    assert_eq!(file.block_size(), 0);
    assert_eq!(file.bytes_per_sector(), 512);
    assert_eq!(file.parent_identifier(), None);
    assert_eq!(file.parent_name(), None);
    assert_eq!(
        file.identifier().to_string(),
        "07070707-0707-0707-0707-070707070707"
    );
    assert_eq!(file.open_source().read_all()?, &data[0..1024]);
    Ok(())
}

#[test]
fn vhd_dynamic_and_differential_disks() -> Result<(), DriverError> {
    let parent = VhdFile::open(memory(build_vhd(3, 1, 0, [0xff, 0xff], 0x61)))?;
    assert_eq!(parent.disk_type(), VhdDiskType::Dynamic);
    assert_eq!(parent.block_size(), VHD_BLOCK as u32);
    assert_eq!(parent.media_size(), 2 * VHD_BLOCK as u64);
    let data = parent.open_source().read_all()?;
    assert!(data[0..VHD_BLOCK].iter().all(|value| *value == 0x61));
    assert!(data[VHD_BLOCK..].iter().all(|value| *value == 0));

    let source = memory(build_vhd(4, 2, 1, [0x81, 0x00], 0x62));
    assert!(VhdFile::open(source.clone()).is_err());
    let child = VhdFile::open_with_parent(source.clone(), &parent)?;
    assert_eq!(child.disk_type(), VhdDiskType::Differential);
    assert_eq!(child.parent_identifier(), Some(parent.identifier()));
    assert_eq!(child.parent_name(), Some("p.v"));
    let data = child.open_source().read_all()?;
    assert!(data[0..512].iter().all(|value| *value == 0x62));
    assert!(data[512..3584].iter().all(|value| *value == 0x61));
    assert!(data[3584..4096].iter().all(|value| *value == 0x62));
    assert!(data[4096..VHD_BLOCK].iter().all(|value| *value == 0x61));
    assert!(data[VHD_BLOCK..].iter().all(|value| *value == 0));

    let mut unstored = build_vhd(4, 3, 1, [0, 0], 0);
    put(&mut unstored, 1536, &u32::MAX.to_be_bytes());
    let unstored = VhdFile::open_with_parent(memory(unstored), &parent)?;
    assert_eq!(
        unstored.open_source().read_all()?,
        parent.open_source().read_all()?
    );

    let stranger = VhdFile::open(memory(build_vhd(3, 9, 0, [0xff, 0xff], 0x61)))?;
    assert!(VhdFile::open_with_parent(source, &stranger).is_err());
    Ok(())
}

#[test]
fn vhd_rejects_what_it_cannot_read() {
    assert!(VhdFile::open(memory(vec![0u8; 100])).is_err());
    assert!(VhdFile::open(memory(vec![0u8; 1024])).is_err());
    assert_eq!(
        VhdFile::open(memory(vhd_footer(9, 512, 1024, 1))).err(),
        Some(DriverError::Unsupported)
    );
}

// VHDX

const KIB_64: usize = 65536;
const MIB: usize = 1048576;

fn uuid_bytes(text: &str) -> Vec<u8> {
    let uuid = Uuid::from_string(text).unwrap();
    let mut data: Vec<u8> = Vec::new();
    data.extend_from_slice(&uuid.part1.to_le_bytes());
    data.extend_from_slice(&uuid.part2.to_le_bytes());
    data.extend_from_slice(&uuid.part3.to_le_bytes());
    data.extend_from_slice(&uuid.part4.to_be_bytes());
    data.extend_from_slice(&uuid.part5.to_be_bytes()[2..]);
    data
}

fn crc32c(data: &[u8]) -> u32 {
    let mut context = ReversedCrc32Context::new(0x82f6_3b78, 0);
    context.update(data);
    context.finalize()
}

fn vhdx_image_header(sequence_number: u64, identifier: u8) -> Vec<u8> {
    let mut data = vec![0u8; 4096];
    put(&mut data, 0, b"head");
    put(&mut data, 8, &sequence_number.to_le_bytes());
    data[32..48].fill(identifier);
    put(&mut data, 66, &1u16.to_le_bytes());
    let checksum = crc32c(&data);
    put(&mut data, 4, &checksum.to_le_bytes());
    data
}

fn utf16_le(text: &str) -> Vec<u8> {
    let mut data: Vec<u8> = Vec::new();
    for unit in text.encode_utf16() {
        data.extend_from_slice(&unit.to_le_bytes());
    }
    data
}

fn vhdx_parent_locator(entries: &[(&str, &str)]) -> Vec<u8> {
    let mut data: Vec<u8> = vec![
        0xb7, 0xef, 0x4a, 0xb0, 0x9e, 0xd1, 0x81, 0x4a, 0xb7, 0x89, 0x25, 0xb8, 0xe9, 0x44, 0x59,
        0x13, 0, 0,
    ];
    data.extend_from_slice(&(entries.len() as u16).to_le_bytes());
    let mut texts: Vec<u8> = Vec::new();
    let texts_offset = 20 + 12 * entries.len();
    for (key, value) in entries {
        let key = utf16_le(key);
        let value = utf16_le(value);
        let key_offset = (texts_offset + texts.len()) as u32;
        texts.extend_from_slice(&key);
        let value_offset = (texts_offset + texts.len()) as u32;
        texts.extend_from_slice(&value);
        data.extend_from_slice(&key_offset.to_le_bytes());
        data.extend_from_slice(&value_offset.to_le_bytes());
        data.extend_from_slice(&(key.len() as u16).to_le_bytes());
        data.extend_from_slice(&(value.len() as u16).to_le_bytes());
    }
    data.extend_from_slice(&texts);
    data
}

/// An image of two blocks of one mebibyte of which the first is stored.
fn build_vhdx(flags: u32, identifier: u8, locator: Option<Vec<u8>>, state: u64, fill: u8) -> Vec<u8> {
    let mut data = vec![0u8; 5 * MIB];
    put(&mut data, 0, b"vhdxfile");
    put(&mut data, KIB_64, &vhdx_image_header(1, 0xee));
    put(&mut data, 2 * KIB_64, &vhdx_image_header(2, identifier));

    let metadata_offset = 512 * 1024usize;
    let table_offset = MIB;
    let mut regions = vec![0u8; KIB_64];
    put(&mut regions, 0, b"regi");
    put(&mut regions, 8, &2u32.to_le_bytes());
    put(&mut regions, 16, &uuid_bytes("2dc27766-f623-4200-9d64-115e9bfd4a08"));
    put(&mut regions, 32, &(table_offset as u64).to_le_bytes());
    put(&mut regions, 40, &(MIB as u32).to_le_bytes());
    put(&mut regions, 48, &uuid_bytes("8b7ca206-4790-4b9a-b8fe-575f050f886e"));
    put(&mut regions, 64, &(metadata_offset as u64).to_le_bytes());
    put(&mut regions, 72, &(131072u32).to_le_bytes());
    let checksum = crc32c(&regions);
    put(&mut regions, 4, &checksum.to_le_bytes());
    put(&mut data, 3 * KIB_64, &regions);

    let locator_data = locator.unwrap_or_default();
    let mut items: Vec<(&str, Vec<u8>)> = Vec::new();
    let mut parameters: Vec<u8> = (MIB as u32).to_le_bytes().to_vec();
    parameters.extend_from_slice(&flags.to_le_bytes());
    items.push(("caa16737-fa36-4d43-b3b6-33f0aa44e76b", parameters));
    items.push((
        "2fa54224-cd1b-4876-b211-5dbed83bf4b8",
        (2 * MIB as u64).to_le_bytes().to_vec(),
    ));
    items.push((
        "8141bf1d-a96f-4709-ba47-f233a8faab5f",
        512u32.to_le_bytes().to_vec(),
    ));
    items.push((
        "cda348c7-445d-4471-9cc9-e9885251c556",
        4096u32.to_le_bytes().to_vec(),
    ));
    items.push(("beca12ab-b2e6-4523-93ef-c309e000c746", vec![0x33; 16]));
    if !locator_data.is_empty() {
        items.push(("a8d35f2d-b30b-454d-abf7-d3d84834ab0c", locator_data));
    }
    put(&mut data, metadata_offset, b"metadata");
    put(&mut data, metadata_offset + 10, &(items.len() as u16).to_le_bytes());
    let mut item_offset = KIB_64;
    for (index, (identifier, item)) in items.iter().enumerate() {
        let entry_offset = metadata_offset + 32 + 32 * index;
        put(&mut data, entry_offset, &uuid_bytes(identifier));
        put(&mut data, entry_offset + 16, &(item_offset as u32).to_le_bytes());
        put(&mut data, entry_offset + 20, &(item.len() as u32).to_le_bytes());
        put(&mut data, metadata_offset + item_offset, item);
        item_offset += item.len();
    }

    put(&mut data, table_offset, &((2 * MIB as u64) | state).to_le_bytes());
    put(&mut data, table_offset + 4096 * 8, &((3 * MIB as u64) | 6).to_le_bytes());
    data[2 * MIB..3 * MIB].fill(fill);
    data[3 * MIB] = 0x01;
    data
}

#[test]
fn vhdx_dynamic_and_differential_disks() -> Result<(), DriverError> {
    let parent = VhdxFile::open(memory(build_vhdx(1, 1, None, 6, 0x61)))?;
    assert_eq!(parent.format_version(), 1);
    assert_eq!(parent.disk_type(), VhdDiskType::Dynamic);
    assert_eq!(parent.bytes_per_sector(), 512);
    assert_eq!(parent.block_size(), MIB as u32);
    assert_eq!(parent.media_size(), 2 * MIB as u64);
    assert_eq!(
        parent.identifier().to_string(),
        "01010101-0101-0101-0101-010101010101"
    );
    assert_eq!(parent.parent_name(), None);
    let data = parent.open_source().read_all()?;
    assert!(data[0..MIB].iter().all(|value| *value == 0x61));
    assert!(data[MIB..2 * MIB].iter().all(|value| *value == 0));

    let locator = vhdx_parent_locator(&[
        ("parent_linkage", "{01010101-0101-0101-0101-010101010101}"),
        ("relative_path", ".\\parent.vhdx"),
        ("absolute_win32_path", "C:\\parent.vhdx"),
    ]);
    let source = memory(build_vhdx(2, 2, Some(locator), 7, 0x62));
    assert!(VhdxFile::open(source.clone()).is_err());
    let child = VhdxFile::open_with_parent(source.clone(), &parent)?;
    assert_eq!(child.disk_type(), VhdDiskType::Differential);
    assert_eq!(child.parent_identifier(), Some(parent.identifier()));
    assert_eq!(child.parent_name(), Some("C:\\parent.vhdx"));
    let data = child.open_source().read_all()?;
    assert!(data[0..512].iter().all(|value| *value == 0x62));
    assert!(data[512..MIB].iter().all(|value| *value == 0x61));
    assert!(data[MIB..2 * MIB].iter().all(|value| *value == 0));

    let stranger = VhdxFile::open(memory(build_vhdx(1, 9, None, 6, 0x61)))?;
    assert!(VhdxFile::open_with_parent(source, &stranger).is_err());
    Ok(())
}

#[test]
fn vhdx_checks_its_headers() -> Result<(), DriverError> {
    let mut secondary_damaged = build_vhdx(0, 1, None, 6, 0x61);
    secondary_damaged[2 * KIB_64 + 40] ^= 0xff;
    let file = VhdxFile::open(memory(secondary_damaged.clone()))?;
    assert_eq!(file.disk_type(), VhdDiskType::Fixed);
    assert_eq!(
        file.identifier().to_string(),
        "eeeeeeee-eeee-eeee-eeee-eeeeeeeeeeee"
    );

    secondary_damaged[KIB_64 + 40] ^= 0xff;
    assert_eq!(
        VhdxFile::open(memory(secondary_damaged)).err(),
        Some(DriverError::ChecksumMismatch)
    );
    assert!(VhdxFile::open(memory(vec![0u8; 5 * MIB])).is_err());
    Ok(())
}

// VMDK

fn vmdk_descriptor(create_type: &str, sectors: u64) -> Vec<u8> {
    format!(
        "# Disk DescriptorFile\nversion=1\nCID=4b9a5d3c\nparentCID=ffffffff\n\
         createType=\"{}\"\n\n# Extent description\nRW {} SPARSE \"disk.vmdk\"\n\n\
         # The Disk Data Base\n#DDB\n",
        create_type, sectors
    )
    .into_bytes()
}

fn build_vmdk(create_type: &str) -> Vec<u8> {
    let mut data = vec![0u8; 20 * 512];
    put(&mut data, 0, b"KDMV");
    put(&mut data, 4, &1u32.to_le_bytes());
    put(&mut data, 8, &1u32.to_le_bytes());
    put(&mut data, 12, &24u64.to_le_bytes());
    put(&mut data, 20, &8u64.to_le_bytes());
    put(&mut data, 28, &1u64.to_le_bytes());
    put(&mut data, 36, &1u64.to_le_bytes());
    put(&mut data, 44, &2u32.to_le_bytes());
    put(&mut data, 56, &2u64.to_le_bytes());
    put(&mut data, 73, &[0x0a, 0x20, 0x0d, 0x0a]);
    put(&mut data, 512, &vmdk_descriptor(create_type, 20));
    put(&mut data, 1024, &3u32.to_le_bytes());
    put(&mut data, 1536 + 4, &10u32.to_le_bytes());
    data[10 * 512..18 * 512].fill(0x61);
    data
}

#[test]
fn vmdk_sparse_file() -> Result<(), DriverError> {
    let file = VmdkFile::open(memory(build_vmdk("monolithicSparse")))?;

    assert_eq!(file.disk_type(), VmdkDiskType::MonolithicSparse);
    assert_eq!(file.bytes_per_sector(), 512);
    assert_eq!(file.sectors_per_grain(), 8);
    assert_eq!(file.compression_method(), VmdkCompressionMethod::Uncompressed);
    assert_eq!(file.content_identifier(), 0x4b9a_5d3c);
    assert_eq!(file.parent_content_identifier(), None);
    assert_eq!(file.media_size(), 20 * 512);
    let data = file.open_source().read_all()?;
    assert!(data[0..4096].iter().all(|value| *value == 0));
    assert!(data[4096..8192].iter().all(|value| *value == 0x61));
    assert!(data[8192..20 * 512].iter().all(|value| *value == 0));
    Ok(())
}

#[test]
fn vmdk_rejects_what_it_cannot_read() {
    assert_eq!(
        VmdkFile::open(memory(build_vmdk("streamOptimized"))).err(),
        Some(DriverError::Unsupported)
    );
    assert!(VmdkFile::open(memory(vec![0u8; 1024])).is_err());
    let mut encoding = build_vmdk("monolithicSparse");
    encoding[530] = 0xff;
    assert_eq!(
        VmdkFile::open(memory(encoding)).err(),
        Some(DriverError::Encoding)
    );
}

#[test]
fn vmdk_cowd_file() -> Result<(), DriverError> {
    let mut data = vec![0u8; 60 * 512];
    put(&mut data, 0, b"COWD");
    put(&mut data, 4, &1u32.to_le_bytes());
    put(&mut data, 12, &20u32.to_le_bytes());
    put(&mut data, 16, &8u32.to_le_bytes());
    put(&mut data, 20, &4u32.to_le_bytes());
    put(&mut data, 24, &1u32.to_le_bytes());
    put(&mut data, 4 * 512, &5u32.to_le_bytes());
    put(&mut data, 5 * 512 + 8, &40u32.to_le_bytes());
    data[40 * 512..48 * 512].fill(0x62);
    let file = VmdkFile::open(memory(data))?;

    assert_eq!(file.disk_type(), VmdkDiskType::VmfsSparse);
    assert_eq!(file.media_size(), 20 * 512);
    assert_eq!(file.content_identifier(), 0);
    let data = file.open_source().read_all()?;
    assert!(data[0..8192].iter().all(|value| *value == 0));
    assert!(data[8192..20 * 512].iter().all(|value| *value == 0x62));
    Ok(())
}

// UDIF

fn base64_text(data: &[u8]) -> String {
    let alphabet: Vec<char> =
        chars("ABCDEFGHIJKLMNOPQRSTUVWXYZabcdefghijklmnopqrstuvwxyz0123456789+/");
    let mut text = String::new();
    for chunk in data.chunks(3) {
        let mut value: u32 = 0;
        for index in 0..3 {
            value = (value << 8) | (*chunk.get(index).unwrap_or(&0) as u32);
        }
        for index in 0..4 {
            if index <= chunk.len() {
                text.push(alphabet[((value >> (18 - 6 * index)) & 0x3f) as usize]);
            } else {
                text.push('=');
            }
        }
        if text.len() % 64 == 0 {
            text.push_str("\n\t");
        }
    }
    text
}

fn udif_entry(kind: u32, start: u64, count: u64, offset: u64, size: u64) -> Vec<u8> {
    let mut data = vec![0u8; 40];
    put(&mut data, 0, &kind.to_be_bytes());
    put(&mut data, 8, &start.to_be_bytes());
    put(&mut data, 16, &count.to_be_bytes());
    put(&mut data, 24, &offset.to_be_bytes());
    put(&mut data, 32, &size.to_be_bytes());
    data
}

fn udif_footer(fork_size: u64, plist_offset: u64, plist_size: u64) -> Vec<u8> {
    let mut footer = vec![0u8; 512];
    put(&mut footer, 0, b"koly");
    put(&mut footer, 4, &4u32.to_be_bytes());
    put(&mut footer, 32, &fork_size.to_be_bytes());
    put(&mut footer, 216, &plist_offset.to_be_bytes());
    put(&mut footer, 224, &plist_size.to_be_bytes());
    footer
}

fn build_udif(kind: u32, compressed: &[u8]) -> Vec<u8> {
    let mut data = compressed.to_vec();
    data.extend_from_slice(&[0x62; 512]);
    let fork_size = data.len() as u64;
    let entries = [
        udif_entry(kind, 0, 1, 0, compressed.len() as u64),
        udif_entry(2, 1, 2, 0, 0),
        udif_entry(1, 3, 1, compressed.len() as u64, 512),
        udif_entry(0xffff_ffff, 4, 0, 0, 0),
    ];
    let mut table = vec![0u8; 204];
    put(&mut table, 0, b"mish");
    put(&mut table, 4, &1u32.to_be_bytes());
    put(&mut table, 200, &(entries.len() as u32).to_be_bytes());
    for entry in entries.iter() {
        table.extend_from_slice(entry);
    }
    let plist = format!(
        "<plist><dict><key>blkx</key><array><dict><key>Data</key><data>\n\t{}\n</data></dict>\
         </array></dict></plist>",
        base64_text(&table)
    );
    let plist_offset = data.len() as u64;
    data.extend_from_slice(plist.as_bytes());
    data.extend_from_slice(&udif_footer(fork_size, plist_offset, plist.len() as u64));
    data
}

fn udif_media() -> Vec<u8> {
    let mut media = vec![0x61u8; 512];
    media.extend_from_slice(&[0u8; 1024]);
    media.extend_from_slice(&[0x62u8; 512]);
    media
}

#[test]
fn udif_zlib_file() -> Result<(), DriverError> {
    let file = UdifFile::open(memory(build_udif(0x8000_0005, &zlib_stored(&[0x61; 512]))))?;

    assert_eq!(file.compression_method(), UdifCompressionMethod::Zlib);
    assert_eq!(file.bytes_per_sector(), 512);
    assert_eq!(file.media_size(), 2048);
    let source = file.open_source();
    assert_eq!(source.read_all()?, udif_media());
    assert_eq!(source.read_all()?, udif_media());
    let mut part = vec![0u8; 4];
    source.read_exact_at(1534, &mut part)?;
    assert_eq!(part, [0, 0, 0x62, 0x62]);
    assert_eq!(source.telemetry_name(), "udif");
    assert_eq!(source.capabilities().seek_cost, DataSourceSeekCost::Expensive);
    Ok(())
}

#[test]
fn udif_adc_and_lzfse_files() -> Result<(), DriverError> {
    let mut adc: Vec<u8> = Vec::new();
    for _ in 0..4 {
        adc.push(0xff);
        adc.extend_from_slice(&[0x61; 128]);
    }
    let file = UdifFile::open(memory(build_udif(0x8000_0004, &adc)))?;
    assert_eq!(file.compression_method(), UdifCompressionMethod::Adc);
    assert_eq!(file.open_source().read_all()?, udif_media());

    let mut lzfse: Vec<u8> = b"bvx-".to_vec();
    lzfse.extend_from_slice(&512u32.to_le_bytes());
    lzfse.extend_from_slice(&[0x61; 512]);
    lzfse.extend_from_slice(b"bvx$");
    let file = UdifFile::open(memory(build_udif(0x8000_0007, &lzfse)))?;
    assert_eq!(file.compression_method(), UdifCompressionMethod::Lzfse);
    assert_eq!(file.open_source().read_all()?, udif_media());
    Ok(())
}

#[test]
fn udif_lzma_is_not_supported() {
    let file = UdifFile::open(memory(build_udif(0x8000_0008, &[0; 16])));

    assert_eq!(file.err(), Some(DriverError::Unsupported));
}

#[test]
fn udif_plain_file() -> Result<(), DriverError> {
    let mut data = vec![0x63u8; 1024];
    data.extend_from_slice(&udif_footer(1024, 0, 0));
    let file = UdifFile::open(memory(data))?;

    assert_eq!(file.compression_method(), UdifCompressionMethod::Uncompressed);
    assert_eq!(file.media_size(), 1024);
    assert_eq!(file.open_source().read_all()?, vec![0x63u8; 1024]);
    assert!(UdifFile::open(memory(vec![0u8; 100])).is_err());
    assert!(UdifFile::open(memory(vec![0u8; 512])).is_err());
    Ok(())
}

#[test]
fn udif_damaged_block_cannot_be_read() -> Result<(), DriverError> {
    let file = UdifFile::open(memory(build_udif(0x8000_0005, &[0xff; 64])))?;
    let mut part = vec![0u8; 4];

    assert_eq!(
        file.open_source().read_at(0, &mut part),
        Err(DriverError::Compression)
    );
    Ok(())
}

#[test]
fn udif_blocks_beside_a_damaged_one_can_be_read() -> Result<(), DriverError> {
    let file = UdifFile::open(memory(build_udif(0x8000_0005, &[0xff; 64])))?;
    let mut part = vec![0u8; 4];

    file.open_source().read_exact_at(1534, &mut part)?;
    assert_eq!(part, [0, 0, 0x62, 0x62]);
    assert_eq!(
        file.open_source().read_at(510, &mut part),
        Err(DriverError::Compression)
    );
    Ok(())
}

// PDI

const PDI_BASE: &str = "{5fbaabe3-6958-40ff-92a7-860e329aab41}";
const PDI_CHILD: &str = "{0d5a1c5c-6e0a-4d6c-8f1d-2b4b5d7e9f10}";

fn pdi_descriptor() -> Vec<u8> {
    format!(
        "<?xml version='1.0' encoding='UTF-8'?>\n<Parallels_disk_image Version=\"1.0\">\n\
         <Disk_Parameters><Disk_size>8</Disk_size><LogicSectorSize>512</LogicSectorSize>\
         <PhysicalSectorSize>4096</PhysicalSectorSize><Padding>0</Padding></Disk_Parameters>\n\
         <StorageData><Storage><Start>0</Start><End>8</End><Blocksize>2048</Blocksize>\
         <Image><GUID>{}</GUID><Type>Plain</Type><File>base.hds</File></Image>\
         <Image><GUID>{}</GUID><Type>Compressed</Type><File>child.hds</File></Image>\
         </Storage></StorageData>\n\
         <Snapshots><Shot><GUID>{}</GUID><ParentGUID>{}</ParentGUID></Shot>\
         <Shot><GUID>{}</GUID>\
         <ParentGUID>{{00000000-0000-0000-0000-000000000000}}</ParentGUID></Shot>\
         </Snapshots>\n</Parallels_disk_image>\n",
        PDI_BASE, PDI_CHILD, PDI_CHILD, PDI_BASE, PDI_BASE
    )
    .into_bytes()
}

fn pdi_child() -> Vec<u8> {
    let mut data = vec![0u8; 2048 + 1024];
    put(&mut data, 0, b"WithoutFreeSpace");
    put(&mut data, 28, &2u32.to_le_bytes());
    put(&mut data, 32, &4u32.to_le_bytes());
    put(&mut data, 36, &8u64.to_le_bytes());
    put(&mut data, 48, &4u32.to_le_bytes());
    put(&mut data, 64 + 4, &4u32.to_le_bytes());
    data[2048..3072].fill(0x62);
    data
}

#[test]
fn pdi_layers() -> Result<(), DriverError> {
    let image = PdiImage::open(&resolver(vec![
        ("DiskDescriptor.xml", pdi_descriptor()),
        ("base.hds", vec![0x61; 4096]),
        ("child.hds", pdi_child()),
    ]))?;

    assert_eq!(image.bytes_per_sector(), 512);
    assert_eq!(image.media_size(), 4096);
    assert_eq!(image.number_of_layers(), 2);
    let base = image.layer(0)?;
    assert_eq!(base.parent_identifier(), None);
    assert_eq!(base.media_size(), 4096);
    assert_eq!(base.open_source().read_all()?, vec![0x61u8; 4096]);
    let child = image.layer(1)?;
    assert_eq!(child.parent_identifier(), Some(base.identifier()));
    let data = image.open_source()?.read_all()?;
    assert!(data[0..1024].iter().all(|value| *value == 0x61));
    assert!(data[1024..2048].iter().all(|value| *value == 0x62));
    assert!(data[2048..4096].iter().all(|value| *value == 0x61));
    assert!(image.layer(2).is_err());
    Ok(())
}

#[test]
fn pdi_rejects_what_it_cannot_read() {
    assert_eq!(
        PdiImage::open(&resolver(vec![])).err(),
        Some(DriverError::Missing)
    );
    assert_eq!(
        PdiImage::open(&resolver(vec![("DiskDescriptor.xml", pdi_descriptor())])).err(),
        Some(DriverError::Missing)
    );
    assert_eq!(
        PdiImage::open(&resolver(vec![("DiskDescriptor.xml", vec![0xff; 8])])).err(),
        Some(DriverError::Encoding)
    );
    assert!(PdiImage::open(&resolver(vec![("DiskDescriptor.xml", vec![])])).is_err());

    let cyclic = String::from_utf8(pdi_descriptor()).unwrap().replace(
        "{00000000-0000-0000-0000-000000000000}",
        PDI_CHILD,
    );
    assert_eq!(
        PdiImage::open(&resolver(vec![(
            "DiskDescriptor.xml",
            cyclic.into_bytes()
        )]))
        .err(),
        Some(DriverError::Cycle)
    );
}

#[test]
fn vmdk_descriptor_values() -> Result<(), DriverError> {
    let text = "# Disk DescriptorFile\nCID=4c069322\nparentCID=ffffffff\n\
        createType=\"monolithicSparse\"\n# Extent description\nRW 8192 SPARSE \"ext2.vmdk\"\n\
        # The Disk Data Base\nfoo\n";
    let descriptor = read_descriptor(&memory(text.as_bytes().to_vec()), 0, text.len() as u64)?;

    assert_eq!(descriptor.content_identifier, 0x4c069322);
    assert_eq!(descriptor.parent_content_identifier, None);
    assert_eq!(descriptor.disk_type, VmdkDiskType::MonolithicSparse);
    assert_eq!(descriptor.extents.len(), 1);
    assert_eq!(descriptor.extents[0].number_of_sectors, 8192);
    assert_eq!(
        descriptor.extents[0].extent_type,
        VmdkDescriptorExtentType::Sparse
    );
    assert_eq!(
        descriptor.extents[0].file_name.as_deref(),
        Some("ext2.vmdk")
    );
    Ok(())
}

#[test]
fn first_split_raw_segment_keeps_its_name() -> Result<(), DriverError> {
    for (file_name, schema, name, count, first_number, suffix_size) in [
        ("image.aaa", SplitRawNamingSchema::Alphabetic, "image.", 0, 0, 3),
        ("image.000", SplitRawNamingSchema::Numeric, "image.", 0, 0, 3),
        ("image.001", SplitRawNamingSchema::Numeric, "image.", 0, 1, 3),
        ("image.1of5", SplitRawNamingSchema::XOfN, "image.", 5, 0, 0),
    ] {
        let first_name = SplitRawImage::get_segment_file_name(
            &chars(name),
            1,
            count,
            schema,
            first_number,
            suffix_size,
        )?;
        assert_eq!(first_name, file_name);
    }
    Ok(())
}

struct FailingSource {
    size: u64,
}

impl DataSource for FailingSource {
    fn read_at(&self, _offset: u64, _buf: &mut [u8]) -> Result<usize, DriverError> {
        Err(DriverError::Source)
    }

    fn size(&self) -> Result<u64, DriverError> {
        Ok(self.size)
    }

    fn capabilities(&self) -> DataSourceCapabilities {
        DataSourceCapabilities::default()
    }

    fn telemetry_name(&self) -> &'static str {
        "failing"
    }

    fn origin_path(&self) -> Option<&str> {
        None
    }
}

struct FailingResolver;

impl SourceResolver for FailingResolver {
    fn open_source(
        &self,
        _relative_path: &str,
    ) -> Result<Option<DataSourceReference>, DriverError> {
        Ok(Some(Arc::new(SharedDataSource {
            inner: Box::new(FailingSource { size: 512 }),
        })))
    }
}

#[test]
fn descriptors_that_cannot_be_read_are_no_images() {
    let resolver: SourceResolverReference = Arc::new(SharedSourceResolver {
        inner: Box::new(FailingResolver),
    });

    assert_eq!(PdiImage::open(&resolver).err(), Some(DriverError::Source));
    assert_eq!(
        SparseBundleImage::open(&resolver).err(),
        Some(DriverError::Source)
    );
}
