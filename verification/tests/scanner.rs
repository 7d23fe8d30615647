//! Format identifiers and the format scanner.

use std::sync::Arc;

use keramics_drivers::format_identifier::FormatIdentifier;
use keramics_drivers::scanner::FormatScanner;
use keramics_drivers::{
    DataSource, DataSourceCapabilities, DataSourceReference, DriverError, MemoryDataSource,
    SharedDataSource,
};

fn memory(data: Vec<u8>) -> DataSourceReference {
    MemoryDataSource::new(data).into_reference()
}

#[test]
fn test_format_identifier_fmt() {
    assert_eq!(FormatIdentifier::Apm.to_string(), "apm");
    assert_eq!(FormatIdentifier::Ewf.to_string(), "ewf");
    assert_eq!(FormatIdentifier::Ext.to_string(), "ext");
    assert_eq!(FormatIdentifier::Fat.to_string(), "fat");
    assert_eq!(FormatIdentifier::Gpt.to_string(), "gpt");
    assert_eq!(FormatIdentifier::Hfs.to_string(), "hfs");
    assert_eq!(FormatIdentifier::Mbr.to_string(), "mbr");
    assert_eq!(FormatIdentifier::Ntfs.to_string(), "ntfs");
    assert_eq!(FormatIdentifier::Pdi.to_string(), "pdi");
    assert_eq!(FormatIdentifier::Qcow.to_string(), "qcow");
    assert_eq!(FormatIdentifier::SparseImage.to_string(), "sparseimage");
    assert_eq!(FormatIdentifier::SplitRaw.to_string(), "splitraw");
    assert_eq!(FormatIdentifier::Udif.to_string(), "udif");
    assert_eq!(FormatIdentifier::Unknown.to_string(), "unknown");
    assert_eq!(FormatIdentifier::Vhd.to_string(), "vhd");
    assert_eq!(FormatIdentifier::Vhdx.to_string(), "vhdx");
    assert_eq!(FormatIdentifier::Vmdk.to_string(), "vmdk");
    assert_eq!(FormatIdentifier::Xfs.to_string(), "xfs");
}

#[test]
fn test_build() -> Result<(), DriverError> {
    let mut format_scanner = FormatScanner::new();
    format_scanner.add_default_signatures();
    format_scanner.build()
}

#[test]
fn test_scan_data_source_with_xfs() -> Result<(), DriverError> {
    let mut format_scanner = FormatScanner::new();
    format_scanner.add_xfs_signatures();
    format_scanner.build()?;

    let data_source: DataSourceReference = memory(b"XFSB".to_vec());
    let scan_results = format_scanner.scan_data_source(&data_source)?;

    assert_eq!(scan_results.len(), 1);
    assert_eq!(scan_results.iter().next(), Some(&FormatIdentifier::Xfs));

    Ok(())
}

struct Mark {
    format: FormatIdentifier,
    at_end: bool,
    offset: usize,
    pattern: &'static [u8],
}

fn mark(
    format: FormatIdentifier,
    at_end: bool,
    offset: usize,
    pattern: &'static [u8],
) -> Mark {
    Mark {
        format,
        at_end,
        offset,
        pattern,
    }
}

fn marks() -> Vec<Mark> {
    vec![
        mark(
            FormatIdentifier::Apm,
            false,
            560,
            b"Apple_partition_map\0\0\0\0\0\0\0\0\0\0\0\0\0",
        ),
        mark(FormatIdentifier::Ewf, false, 0, b"EVF\x09\x0d\x0a\xff\x00"),
        mark(FormatIdentifier::Ext, false, 1080, b"\x53\xef"),
        mark(FormatIdentifier::Fat, false, 54, b"FAT12   "),
        mark(FormatIdentifier::Fat, false, 54, b"FAT16   "),
        mark(FormatIdentifier::Fat, false, 82, b"FAT32   "),
        mark(FormatIdentifier::Gpt, false, 512, b"EFI PART"),
        mark(FormatIdentifier::Gpt, false, 1024, b"EFI PART"),
        mark(FormatIdentifier::Gpt, false, 2048, b"EFI PART"),
        mark(FormatIdentifier::Gpt, false, 4096, b"EFI PART"),
        mark(FormatIdentifier::Hfs, false, 1024, b"BD"),
        mark(FormatIdentifier::Hfs, false, 1024, b"H+"),
        mark(FormatIdentifier::Hfs, false, 1024, b"HX"),
        mark(FormatIdentifier::Mbr, false, 510, b"\x55\xaa"),
        mark(FormatIdentifier::Mbr, false, 1022, b"\x55\xaa"),
        mark(FormatIdentifier::Mbr, false, 2046, b"\x55\xaa"),
        mark(FormatIdentifier::Mbr, false, 4094, b"\x55\xaa"),
        mark(FormatIdentifier::Ntfs, false, 3, b"NTFS    "),
        mark(FormatIdentifier::Pdi, false, 39, b"<Parallels_disk_image "),
        mark(FormatIdentifier::Qcow, false, 0, b"QFI\xfb\0\0\0\x01"),
        mark(FormatIdentifier::Qcow, false, 0, b"QFI\xfb\0\0\0\x02"),
        mark(FormatIdentifier::Qcow, false, 0, b"QFI\xfb\0\0\0\x03"),
        mark(FormatIdentifier::SparseImage, false, 0, b"sprs"),
        mark(FormatIdentifier::Udif, true, 512, b"koly"),
        mark(FormatIdentifier::Vhd, true, 512, b"conectix"),
        mark(FormatIdentifier::Vhdx, false, 0, b"vhdxfile"),
        mark(FormatIdentifier::Vmdk, false, 0, b"# Disk DescriptorFile"),
        mark(FormatIdentifier::Vmdk, false, 0, b"KDMV"),
        mark(FormatIdentifier::Xfs, false, 0, b"XFSB"),
    ]
}

fn position(mark: &Mark, size: usize) -> usize {
    if mark.at_end {
        size - mark.offset
    } else {
        mark.offset
    }
}

fn put_mark(data: &mut [u8], mark: &Mark) {
    let at = position(mark, data.len());
    data[at..at + mark.pattern.len()].copy_from_slice(mark.pattern);
}

fn expected_formats(data: &[u8]) -> Vec<String> {
    let mut names: Vec<String> = Vec::new();
    for mark in marks().iter() {
        let at = position(mark, data.len());
        if &data[at..at + mark.pattern.len()] == mark.pattern {
            let name = mark.format.to_string();
            if !names.contains(&name) {
                names.push(name);
            }
        }
    }
    names.sort();
    names
}

fn scanned_formats(scanner: &FormatScanner, data: &[u8]) -> Result<Vec<String>, DriverError> {
    let formats = scanner.scan_data_source(&memory(data.to_vec()))?;
    let mut names: Vec<String> = formats.iter().map(|format| format.to_string()).collect();
    names.sort();
    Ok(names)
}

fn default_scanner() -> Result<FormatScanner, DriverError> {
    let mut format_scanner = FormatScanner::default();
    format_scanner.add_default_signatures();
    format_scanner.build()?;
    Ok(format_scanner)
}

#[test]
fn each_signature_is_found() -> Result<(), DriverError> {
    let scanner = default_scanner()?;

    for mark in marks().iter() {
        let mut data = vec![0u8; 16384];
        put_mark(&mut data, mark);
        assert_eq!(
            scanned_formats(&scanner, &data)?,
            vec![mark.format.to_string()]
        );
    }
    Ok(())
}

#[test]
fn signatures_next_to_each_other_are_found() -> Result<(), DriverError> {
    let scanner = default_scanner()?;
    let mut seed: u32 = 12345;

    for round in 0..400u32 {
        let mut data = vec![(round % 7) as u8; 16384];
        for mark in marks().iter() {
            seed = seed.wrapping_mul(1664525).wrapping_add(1013904223);
            if (seed >> 24) % 4 == 0 {
                put_mark(&mut data, mark);
            }
        }
        assert_eq!(scanned_formats(&scanner, &data)?, expected_formats(&data));
    }
    Ok(())
}

#[test]
fn damaged_signatures_hide_no_others() -> Result<(), DriverError> {
    let scanner = default_scanner()?;
    let mut seed: u32 = 99;

    for round in 0..3000u32 {
        let mut data = vec![(round % 3) as u8; 16384];
        for mark in marks().iter() {
            seed = seed.wrapping_mul(1664525).wrapping_add(1013904223);
            if (seed >> 24) % 3 == 0 {
                put_mark(&mut data, mark);
            }
            if (seed >> 16) % 3 != 0 {
                let at = position(mark, data.len()) + (seed >> 8) as usize % mark.pattern.len();
                data[at] = data[at].wrapping_add(1);
            }
        }
        assert_eq!(scanned_formats(&scanner, &data)?, expected_formats(&data));
    }
    Ok(())
}

fn scanner_for(selection: u32) -> Result<(FormatScanner, Vec<String>), DriverError> {
    let adders: Vec<(FormatIdentifier, fn(&mut FormatScanner))> = vec![
        (FormatIdentifier::Apm, FormatScanner::add_apm_signatures),
        (FormatIdentifier::Ewf, FormatScanner::add_ewf_signatures),
        (FormatIdentifier::Ext, FormatScanner::add_ext_signatures),
        (FormatIdentifier::Fat, FormatScanner::add_fat_signatures),
        (FormatIdentifier::Gpt, FormatScanner::add_gpt_signatures),
        (FormatIdentifier::Hfs, FormatScanner::add_hfs_signatures),
        (FormatIdentifier::Mbr, FormatScanner::add_mbr_signatures),
        (FormatIdentifier::Ntfs, FormatScanner::add_ntfs_signatures),
        (FormatIdentifier::Pdi, FormatScanner::add_pdi_signatures),
        (FormatIdentifier::Qcow, FormatScanner::add_qcow_signatures),
        (
            FormatIdentifier::SparseImage,
            FormatScanner::add_sparseimage_signatures,
        ),
        (FormatIdentifier::Udif, FormatScanner::add_udif_signatures),
        (FormatIdentifier::Vhd, FormatScanner::add_vhd_signatures),
        (FormatIdentifier::Vhdx, FormatScanner::add_vhdx_signatures),
        (FormatIdentifier::Vmdk, FormatScanner::add_vmdk_signatures),
        (FormatIdentifier::Xfs, FormatScanner::add_xfs_signatures),
    ];
    let mut format_scanner = FormatScanner::new();
    let mut names: Vec<String> = Vec::new();
    for (index, (format, add)) in adders.iter().enumerate() {
        if (selection >> index) & 1 == 1 {
            add(&mut format_scanner);
            names.push(format.to_string());
        }
    }
    format_scanner.build()?;
    Ok((format_scanner, names))
}

#[test]
fn any_selection_of_formats_is_scanned_for() -> Result<(), DriverError> {
    let mut seed: u32 = 7;

    for _ in 0..300u32 {
        seed = seed.wrapping_mul(1664525).wrapping_add(1013904223);
        let (scanner, names) = scanner_for(seed >> 12)?;
        for round in 0..10u32 {
            let mut data = vec![(round % 3) as u8; 6000 + 997 * round as usize];
            for mark in marks().iter() {
                seed = seed.wrapping_mul(1664525).wrapping_add(1013904223);
                if (seed >> 24) % 2 == 0 {
                    put_mark(&mut data, mark);
                }
                if (seed >> 16) % 3 == 0 {
                    let at = position(mark, data.len()) + (seed >> 8) as usize % mark.pattern.len();
                    data[at] = data[at].wrapping_add(1);
                }
            }
            let mut expected = expected_formats(&data);
            expected.retain(|name| names.contains(name));
            assert_eq!(scanned_formats(&scanner, &data)?, expected);
        }
    }
    Ok(())
}

#[test]
fn moved_signatures_are_not_found() -> Result<(), DriverError> {
    let scanner = default_scanner()?;

    for mark in marks().iter() {
        let mut data = vec![0u8; 16384];
        let at = position(mark, data.len()) + 1;
        data[at..at + mark.pattern.len()].copy_from_slice(mark.pattern);
        assert_eq!(scanned_formats(&scanner, &data)?, expected_formats(&data));
    }
    assert!(scanned_formats(&scanner, &vec![0u8; 16384])?.is_empty());
    Ok(())
}

#[test]
fn scanner_finds_only_what_was_added() -> Result<(), DriverError> {
    let mut format_scanner = FormatScanner::new();
    format_scanner.add_qcow_signatures();
    format_scanner.add_vhd_signatures();
    format_scanner.build()?;
    let mut data = vec![0u8; 4096];
    data[0..8].copy_from_slice(b"QFI\xfb\0\0\0\x03");
    data[510..512].copy_from_slice(&[0x55, 0xaa]);

    assert_eq!(scanned_formats(&format_scanner, &data)?, vec!["qcow"]);
    Ok(())
}

#[test]
fn scanner_finds_nothing_before_it_is_built() -> Result<(), DriverError> {
    let mut format_scanner = FormatScanner::new();
    format_scanner.add_qcow_signatures();
    let mut data = vec![0u8; 4096];
    data[0..8].copy_from_slice(b"QFI\xfb\0\0\0\x03");

    assert!(scanned_formats(&format_scanner, &data)?.is_empty());
    format_scanner.build()?;
    assert_eq!(scanned_formats(&format_scanner, &data)?, vec!["qcow"]);
    Ok(())
}

#[test]
fn signatures_can_be_added_once() {
    let mut format_scanner = FormatScanner::new();
    format_scanner.add_qcow_signatures();
    format_scanner.add_qcow_signatures();

    assert!(format_scanner.build().is_err());
}

#[test]
fn signatures_at_the_start_of_small_data_are_found() -> Result<(), DriverError> {
    let scanner = default_scanner()?;
    for mark in marks() {
        for size in [8, 64, 128, 511, 512, 515, 519] {
            let mut data: Vec<u8> = vec![0; size];
            let at = mark.offset;
            if mark.at_end || at + mark.pattern.len() > size {
                continue;
            }
            data[at..at + mark.pattern.len()].copy_from_slice(mark.pattern);
            let formats = scanned_formats(&scanner, &data)?;
            assert!(formats.contains(&mark.format.to_string()));
        }
    }
    Ok(())
}

struct ShortSource {
    data: Vec<u8>,
}

impl DataSource for ShortSource {
    fn read_at(&self, offset: u64, buf: &mut [u8]) -> Result<usize, DriverError> {
        let start = self.data.len().min(offset as usize);
        let count = buf.len().min(16).min(self.data.len() - start);
        buf[..count].copy_from_slice(&self.data[start..start + count]);
        Ok(count)
    }

    fn size(&self) -> Result<u64, DriverError> {
        Ok(self.data.len() as u64)
    }

    fn capabilities(&self) -> DataSourceCapabilities {
        DataSourceCapabilities::default()
    }

    fn telemetry_name(&self) -> &'static str {
        "short"
    }

    fn origin_path(&self) -> Option<&str> {
        None
    }
}

#[test]
fn formats_found_in_short_reads_stand_in_the_data() -> Result<(), DriverError> {
    let scanner = default_scanner()?;
    for mark in marks() {
        let mut data: Vec<u8> = vec![0; 8192];
        put_mark(&mut data, &mark);
        let source: DataSourceReference = Arc::new(SharedDataSource {
            inner: Box::new(ShortSource { data }),
        });
        for format in scanner.scan_data_source(&source)? {
            assert_eq!(format.to_string(), mark.format.to_string());
        }
    }
    Ok(())
}
