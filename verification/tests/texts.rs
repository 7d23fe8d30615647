//! Texts, identifiers, paths and compressed data.

use std::path::{Component, Path};

use keramics_drivers::compression::{decompress, CompressionMethod};
use keramics_drivers::encoding::base64_decode;
use keramics_drivers::filesystem::names::{count_distinct, find_last_named};
use keramics_drivers::filesystem::path::{rewrite_path_parts, split_absolute_path};
use keramics_drivers::powers::power_of_two;
use keramics_drivers::resolver::{sanitize_relative_path, PathComponent};
use keramics_drivers::scan::{find_pattern, lowercase_text, parse_number, trim_text};
use keramics_drivers::text::{chars_text, decode_utf16, read_units_be, read_units_le, text_chars};
use keramics_drivers::uuid::Uuid;
use keramics_drivers::DriverError;

fn chars(text: &str) -> Vec<char> {
    text.chars().collect()
}

fn parts(texts: &[&str]) -> Vec<Vec<char>> {
    texts.iter().map(|text| chars(text)).collect()
}

fn path_components(path: &str) -> Vec<PathComponent> {
    Path::new(path)
        .components()
        .map(|component| match component {
            Component::Prefix(_) => PathComponent::Prefix,
            Component::RootDir => PathComponent::RootDir,
            Component::CurDir => PathComponent::CurDir,
            Component::ParentDir => PathComponent::ParentDir,
            Component::Normal(name) => PathComponent::Normal(name.to_string_lossy().into_owned()),
        })
        .collect()
}

#[test]
fn test_rejects_parent_dir_escape() {
    let result = sanitize_relative_path(path_components("../file.txt"));

    assert!(result.is_err());
}

#[test]
fn safe_paths_stay_below_their_directory() -> Result<(), DriverError> {
    let names = |path: &str| sanitize_relative_path(path_components(path));
    assert_eq!(names("file.txt")?, vec!["file.txt"]);
    assert_eq!(names("bands/./0")?, vec!["bands", "0"]);
    assert_eq!(names("bands//0/")?, vec!["bands", "0"]);
    assert_eq!(names("..a/b..")?, vec!["..a", "b.."]);
    for path in ["", ".", "./", "/file.txt", "a/../b", "..", "a/.."] {
        assert_eq!(names(path), Err(DriverError::Invalid));
    }
    let drive = vec![PathComponent::Prefix, PathComponent::Normal("x".to_string())];
    assert_eq!(sanitize_relative_path(drive), Err(DriverError::Invalid));
    Ok(())
}

#[test]
fn uuid_texts_and_bytes_agree() -> Result<(), DriverError> {
    let text = "00112233-4455-6677-8899-aabbccddeeff";
    let uuid = Uuid::from_string(text)?;
    let bytes: Vec<u8> = vec![
        0x00, 0x11, 0x22, 0x33, 0x44, 0x55, 0x66, 0x77, 0x88, 0x99, 0xaa, 0xbb, 0xcc, 0xdd, 0xee,
        0xff,
    ];

    assert_eq!(uuid.part1, 0x0011_2233);
    assert_eq!(uuid.part5, 0xaabb_ccdd_eeff);
    assert_eq!(uuid.to_string(), text);
    assert_eq!(Uuid::from_be_bytes(&bytes, 0), uuid);
    assert_eq!(
        Uuid::from_le_bytes(&bytes, 0).to_string(),
        "33221100-5544-7766-8899-aabbccddeeff"
    );
    assert!(!uuid.is_nil());
    assert!(Uuid::from_be_bytes(&[0; 16], 0).is_nil());
    assert_eq!(Uuid::from_string("no uuid"), Err(DriverError::Invalid));
    assert_eq!(
        Uuid::from_string("0011223\u{e9}-4455-6677-8899-aabbccddeeff"),
        Err(DriverError::Encoding)
    );
    Ok(())
}

#[test]
fn utf16_texts() {
    let units: Vec<u16> = "gr\u{fc}n \u{1f600}".encode_utf16().collect();
    let mut little: Vec<u8> = Vec::new();
    let mut big: Vec<u8> = Vec::new();
    for unit in units.iter() {
        little.extend_from_slice(&unit.to_le_bytes());
        big.extend_from_slice(&unit.to_be_bytes());
    }
    let mut terminated = little.clone();
    terminated.extend_from_slice(&[0, 0, 0x41, 0]);

    assert_eq!(read_units_le(&little, false), units);
    assert_eq!(read_units_be(&big, false), units);
    assert_eq!(read_units_le(&terminated, true), units);
    assert_eq!(read_units_le(&terminated, false).len(), units.len() + 2);
    assert_eq!(
        decode_utf16(&units),
        Some("gr\u{fc}n \u{1f600}".to_string())
    );
    assert_eq!(decode_utf16(&[0xd83d]), None);
    assert_eq!(decode_utf16(&[0xde00, 0x41]), None);
    assert_eq!(decode_utf16(&[0xd83d, 0x41]), None);
    assert_eq!(decode_utf16(&[]), Some(String::new()));
}

#[test]
fn texts_and_characters() {
    let text = "a/b \u{e9}";

    assert_eq!(text_chars(text), chars(text));
    assert_eq!(chars_text(&text_chars(text)), text);
    assert_eq!(trim_text(&chars("  a b\t\n")), &chars("a b")[..]);
    assert_eq!(lowercase_text(&chars("AbC\u{c9}")), chars("abc\u{c9}"));
    assert_eq!(
        find_pattern(&chars("abcabc"), &chars("ca"), 0),
        Some(2)
    );
    assert_eq!(find_pattern(&chars("abcabc"), &chars("ab"), 1), Some(3));
    assert_eq!(find_pattern(&chars("abc"), &chars("d"), 0), None);
}

#[test]
fn numbers_in_texts() {
    assert_eq!(parse_number(&chars("255"), 10, 255), Some(255));
    assert_eq!(parse_number(&chars("256"), 10, 255), None);
    assert_eq!(parse_number(&chars("fFfFfFfF"), 16, 0xffff_ffff), Some(0xffff_ffff));
    assert_eq!(parse_number(&chars("+7"), 10, 100), Some(7));
    assert_eq!(parse_number(&chars(""), 10, 100), None);
    assert_eq!(parse_number(&chars("-1"), 10, 100), None);
    assert_eq!(parse_number(&chars("1a"), 10, 100), None);
    assert_eq!(
        parse_number(&chars("18446744073709551615"), 10, u64::MAX),
        Some(u64::MAX)
    );
    assert_eq!(
        parse_number(&chars("18446744073709551616"), 10, u64::MAX),
        None
    );
}

#[test]
fn powers() {
    assert_eq!(power_of_two(0), 1);
    assert_eq!(power_of_two(9), 512);
    assert_eq!(power_of_two(63), 1 << 63);
}

#[test]
fn absolute_paths() {
    assert_eq!(split_absolute_path("/"), Some(parts(&[])));
    assert_eq!(split_absolute_path("/a//b/"), Some(parts(&["a", "b"])));
    assert_eq!(split_absolute_path("a/b"), None);
    assert_eq!(split_absolute_path(""), None);
}

#[test]
fn symbolic_links_rewrite_paths() {
    let path = parts(&["a", "link", "c"]);

    assert_eq!(
        rewrite_path_parts(&path, 1, &chars("b")),
        parts(&["a", "b", "c"])
    );
    assert_eq!(
        rewrite_path_parts(&path, 1, &chars("../x/./y")),
        parts(&["x", "y", "c"])
    );
    assert_eq!(
        rewrite_path_parts(&path, 1, &chars("/x")),
        parts(&["x", "c"])
    );
    assert_eq!(
        rewrite_path_parts(&path, 1, &chars("../../..")),
        parts(&["c"])
    );
}

#[test]
fn the_last_of_equal_names_counts() {
    let names = parts(&["a", "b", "a"]);

    assert_eq!(find_last_named(&names, &chars("a")), Some(2));
    assert_eq!(find_last_named(&names, &chars("b")), Some(1));
    assert_eq!(find_last_named(&names, &chars("c")), None);
    assert_eq!(count_distinct(&names), 2);
}

#[test]
fn zlib_data_is_decompressed() {
    let data: Vec<u8> = vec![
        0x78, 0x9c, 0xab, 0xca, 0xc9, 0x4c, 0x52, 0x28, 0x49, 0x2d, 0x2e, 0x51, 0x48, 0x49, 0x2c,
        0x49, 0xd4, 0x51, 0xa8, 0xc2, 0xcb, 0x07, 0x00, 0x85, 0x0a, 0x10, 0x7a,
    ];
    let (buffer, count) = decompress(CompressionMethod::Zlib, &data, 46).unwrap();

    assert_eq!(buffer, b"zlib test data, zlib test data, zlib test data");
    assert_eq!(count, 46);
    assert!(decompress(CompressionMethod::Zlib, &[0xff; 16], 46).is_none());
}

#[test]
fn bzip2_data_is_decompressed() {
    let data: Vec<u8> = vec![
        0x42, 0x5a, 0x68, 0x39, 0x31, 0x41, 0x59, 0x26, 0x53, 0x59, 0xd7, 0x07, 0xdb, 0xfb, 0x00,
        0x00, 0x06, 0x19, 0x80, 0x40, 0x04, 0x10, 0x00, 0x36, 0x20, 0x4c, 0x10, 0x20, 0x00, 0x31,
        0x03, 0x40, 0xd0, 0x12, 0xa1, 0xea, 0x64, 0x3c, 0xa6, 0x58, 0x8d, 0xf8, 0x47, 0x05, 0x78,
        0x44, 0x18, 0xc8, 0x59, 0x64, 0x3e, 0x2e, 0xe4, 0x8a, 0x70, 0xa1, 0x21, 0xae, 0x0f, 0xb7,
        0xf6,
    ];
    let (buffer, count) = decompress(CompressionMethod::Bzip2, &data, 32).unwrap();

    assert_eq!(buffer, b"bzip2 test data, bzip2 test data");
    assert_eq!(count, 32);
    assert!(decompress(CompressionMethod::Bzip2, b"no bzip2 data at all", 32).is_none());
}

#[test]
fn adc_data_is_decompressed() {
    // Three literal bytes, then five bytes from a distance of three.
    let data: Vec<u8> = vec![0x82, 0x61, 0x62, 0x63, 0x08, 0x02];
    let (buffer, count) = decompress(CompressionMethod::Adc, &data, 8).unwrap();

    assert_eq!(buffer, b"abcabcab");
    assert_eq!(count, 8);
    assert!(decompress(CompressionMethod::Adc, &[0x8f, 0x61], 16).is_none());
}

#[test]
fn lzfse_data_is_decompressed() {
    let mut data: Vec<u8> = Vec::new();
    data.extend_from_slice(b"bvx-");
    data.extend_from_slice(&5u32.to_le_bytes());
    data.extend_from_slice(b"hello");
    data.extend_from_slice(b"bvx$");
    let (buffer, count) = decompress(CompressionMethod::Lzfse, &data, 5).unwrap();

    assert_eq!(buffer, b"hello");
    assert_eq!(count, 5);
    assert!(decompress(CompressionMethod::Lzfse, b"xxxxxxxx", 5).is_none());
}

#[test]
fn base64_texts_are_decoded() {
    assert_eq!(base64_decode(b"aGVsbG8="), Some(b"hello".to_vec()));
    assert_eq!(base64_decode(b" aGVs\n\tbG8= "), Some(b"hello".to_vec()));
    assert_eq!(base64_decode(b"aGVsbG8h"), Some(b"hello!".to_vec()));
    assert_eq!(base64_decode(b""), Some(Vec::new()));
    assert_eq!(base64_decode(b"aGVs*G8="), None);
}

fn lzfse_sample() -> Vec<u8> {
    vec![
        0x62, 0x76, 0x78, 0x32, 0x00, 0x10, 0x00, 0x00, 0x44, 0x00, 0x30, 0x02, 0x00, 0x05, 0x00,
        0x40, 0xe4, 0x8b, 0xd9, 0xa2, 0xc9, 0x0f, 0x00, 0x50, 0xa5, 0x00, 0x00, 0x00, 0x39, 0x58,
        0x30, 0x0d, 0x47, 0x70, 0x05, 0x70, 0x05, 0x00, 0x70, 0x75, 0xc5, 0x15, 0x00, 0x57, 0x00,
        0x70, 0x05, 0xc0, 0x07, 0xf0, 0xb5, 0xfc, 0x06, 0x00, 0x00, 0x00, 0x00, 0x00, 0x00, 0x00,
        0x00, 0x00, 0x00, 0x00, 0x00, 0x00, 0x00, 0x00, 0xf0, 0x72, 0x01, 0xdc, 0x01, 0x00, 0xc0,
        0xdd, 0x1b, 0x00, 0x00, 0xdc, 0x01, 0x70, 0x77, 0x07, 0x00, 0xdc, 0x01, 0x00, 0x77, 0x70,
        0x77, 0x07, 0x00, 0x00, 0x00, 0x77, 0x00, 0xdc, 0xdd, 0x01, 0x00, 0x00, 0xdc, 0x01, 0x00,
        0x70, 0x07, 0x77, 0x5f, 0x01, 0x77, 0xbc, 0x01, 0x77, 0x77, 0xdc, 0x01, 0x70, 0x07, 0x00,
        0x70, 0x07, 0x00, 0x00, 0x00, 0x00, 0x00, 0x00, 0x00, 0x00, 0x00, 0x00, 0xc0, 0x1b, 0xc0,
        0x1d, 0x00, 0x00, 0x77, 0x00, 0xdc, 0x01, 0x00, 0x77, 0x00, 0x00, 0x00, 0x00, 0xdc, 0xdd,
        0xdd, 0x01, 0xdc, 0x01, 0x00, 0x70, 0x07, 0x70, 0x07, 0x77, 0x77, 0x00, 0x00, 0x00, 0x00,
        0x00, 0xef, 0x1c, 0x68, 0xbd, 0xc5, 0xd0, 0xc4, 0x3c, 0x8c, 0xb7, 0xbe, 0x86, 0x9b, 0xeb,
        0x76, 0x65, 0xd2, 0x38, 0x3e, 0x26, 0x5c, 0x31, 0x96, 0xe7, 0x57, 0xc5, 0x31, 0xd3, 0x83,
        0xb0, 0x45, 0x9f, 0xa7, 0x03, 0x00, 0x00, 0x00, 0x00, 0x00, 0x00, 0x00, 0x00, 0xd0, 0xd3,
        0xfc, 0x7f, 0x9c, 0x51, 0x03, 0x62, 0x76, 0x78, 0x24,
    ]
}

fn bzip2_sample() -> Vec<u8> {
    vec![
        0x42, 0x5a, 0x68, 0x31, 0x31, 0x41, 0x59, 0x26, 0x53, 0x59, 0xda, 0xf2, 0x78, 0x9d, 0x00,
        0x03, 0x08, 0xd9, 0x40, 0xc0, 0x10, 0x40, 0x00, 0x7f, 0xe0, 0x03, 0x25, 0x80, 0x02, 0x00,
        0x08, 0x40, 0x03, 0x18, 0xe1, 0x8e, 0x74, 0x01, 0xc2, 0x2a, 0x7e, 0x53, 0x1a, 0x7f, 0xaa,
        0xa4, 0x00, 0x06, 0xa7, 0xa3, 0x20, 0x55, 0x46, 0x98, 0x86, 0x1a, 0xa7, 0xfa, 0x0a, 0xa0,
        0x9a, 0x69, 0xa6, 0x01, 0x27, 0xaa, 0xaa, 0x31, 0x0c, 0x20, 0xda, 0x4f, 0x8d, 0xa5, 0x45,
        0x98, 0x99, 0xd3, 0xbf, 0x6e, 0xc3, 0x9c, 0xb0, 0x39, 0x70, 0xe5, 0x1c, 0xa3, 0x95, 0x61,
        0xcb, 0x87, 0x15, 0xc3, 0x97, 0x0e, 0x17, 0x12, 0x5c, 0x38, 0xee, 0x25, 0xb8, 0x72, 0x5c,
        0x4b, 0xb0, 0xe3, 0xb8, 0x96, 0xe1, 0xc2, 0xe2, 0x4b, 0x87, 0x15, 0xc3, 0x97, 0x0e, 0x78,
        0xf0, 0x08, 0x01, 0x08, 0x40, 0x81, 0x09, 0x88, 0x80, 0x89, 0x51, 0xa3, 0x11, 0x80, 0x90,
        0x20, 0x88, 0x08, 0x40, 0x80, 0x20, 0x24, 0x90, 0x24, 0x08, 0x40, 0x04, 0x24, 0x44, 0x80,
        0x48, 0x62, 0x42, 0x20, 0x20, 0x24, 0x88, 0x24, 0x89, 0x31, 0x31, 0x31, 0x33, 0x77, 0x31,
        0x3d, 0xa3, 0xbe, 0xa4, 0xf1, 0x8f, 0x3d, 0x76, 0xba, 0x1b, 0xcd, 0x20, 0xba, 0xad, 0x0d,
        0x4e, 0x20, 0x51, 0x4c, 0x8d, 0xaf, 0x4c, 0x4b, 0x85, 0x09, 0xc1, 0x7a, 0x1b, 0xe3, 0x79,
        0xe1, 0x04, 0xac, 0xcd, 0x0b, 0x2d, 0x89, 0xdc, 0x20, 0xa1, 0x39, 0x03, 0x5e, 0x66, 0x3a,
        0x44, 0xf1, 0x52, 0xde, 0xf9, 0x1c, 0x90, 0x59, 0xa6, 0x25, 0x06, 0x6f, 0x55, 0x2f, 0x09,
        0xcb, 0x97, 0x3b, 0x48, 0x69, 0x93, 0xe1, 0x24, 0xde, 0x5a, 0x2a, 0x74, 0x16, 0x39, 0x30,
        0x65, 0x30, 0x62, 0x50, 0x31, 0x2d, 0xd0, 0xac, 0xbb, 0xcc, 0xee, 0xed, 0x34, 0xe0, 0x7a,
        0x48, 0x1e, 0x24, 0x78, 0x49, 0x1e, 0x83, 0x84, 0x09, 0x07, 0x14, 0xe1, 0x89, 0x08, 0x45,
        0x1e, 0xd2, 0x2e, 0xad, 0xa0, 0x41, 0xd4, 0x68, 0xe3, 0x9f, 0xe4, 0x59, 0xf5, 0x5f, 0x77,
        0x2d, 0x2f, 0xbb, 0x72, 0xe9, 0x18, 0x21, 0x99, 0xe7, 0x22, 0x43, 0x79, 0xd5, 0x42, 0x12,
        0xd1, 0x26, 0x02, 0x89, 0x33, 0x22, 0xcf, 0x81, 0x23, 0x8f, 0x66, 0x6a, 0x14, 0x2d, 0x40,
        0xeb, 0xee, 0xde, 0xee, 0xf2, 0x3e, 0x39, 0x02, 0xcf, 0xa0, 0x8c, 0x4d, 0x2a, 0x3e, 0xd9,
        0x11, 0xe0, 0x72, 0x3b, 0xb7, 0x49, 0xc0, 0xe2, 0x53, 0x06, 0x25, 0x83, 0x12, 0x10, 0xcc,
        0xb7, 0x1d, 0x5b, 0x9b, 0xd8, 0x1a, 0xe4, 0xb6, 0x93, 0x5a, 0x40, 0xd8, 0xaa, 0xd6, 0x11,
        0x27, 0x88, 0x46, 0x88, 0x93, 0x41, 0x5c, 0xf1, 0x10, 0x07, 0xb6, 0xb2, 0xcb, 0xcb, 0xdc,
        0xde, 0xa9, 0x20, 0x59, 0x02, 0x08, 0xc8, 0x9d, 0xe7, 0xa7, 0x48, 0xf3, 0x79, 0xc4, 0xb0,
        0x62, 0x57, 0x8c, 0x4c, 0x21, 0x13, 0x2a, 0xe2, 0x34, 0xbb, 0xcc, 0xde, 0xe7, 0x7a, 0xd2,
        0xe6, 0xd5, 0xed, 0x0e, 0x22, 0x0f, 0x2a, 0x96, 0x47, 0x1f, 0x61, 0x00, 0x94, 0xe6, 0x33,
        0x1e, 0xb7, 0x90, 0xf6, 0xb3, 0xbb, 0x94, 0x9f, 0x69, 0xa2, 0x05, 0x11, 0x73, 0xa9, 0x46,
        0xdc, 0x8a, 0x20, 0x72, 0xca, 0x87, 0x99, 0x7d, 0xbd, 0x26, 0x22, 0x5e, 0x24, 0x38, 0xf9,
        0xab, 0xd6, 0xc7, 0x19, 0x3e, 0x04, 0xe0, 0xc7, 0x78, 0xe6, 0x5a, 0x25, 0x83, 0x0d, 0x30,
        0x65, 0x31, 0x31, 0x30, 0x85, 0x5c, 0xf4, 0xbd, 0xbd, 0xde, 0x81, 0x84, 0x49, 0x67, 0x76,
        0x34, 0xfa, 0xfd, 0xba, 0x75, 0xe9, 0xcf, 0x15, 0xef, 0xe6, 0xad, 0xb7, 0x15, 0x6d, 0xb8,
        0xab, 0x6d, 0xeb, 0xce, 0xda, 0xdb, 0xd5, 0x5b, 0x6f, 0x8a, 0xb6, 0xdc, 0x5f, 0xe2, 0xee,
        0x48, 0xa7, 0x0a, 0x12, 0x1b, 0x5e, 0x4f, 0x13, 0xa0,
    ]
}

#[test]
fn lzfse_block_with_encoded_frequencies_is_decompressed() {
    let (buffer, count) = decompress(CompressionMethod::Lzfse, &lzfse_sample(), 4096).unwrap();

    assert_eq!(count, 4096);
    assert_eq!(buffer[..8], [239, 87, 52, 124, 0, 0, 170, 17]);
    let sum: usize = buffer.iter().enumerate().map(|(i, b)| (i + 1) * *b as usize).sum();
    assert_eq!(sum, 140095);
}

#[test]
fn lzfse_block_that_leads_back_is_refused() {
    let mut data: Vec<u8> = vec![0; 1532];
    data[..4].copy_from_slice(b"bvx1");
    data[762..766].copy_from_slice(b"bvx1");

    assert!(decompress(CompressionMethod::Lzfse, &data, 16).is_none());
}

#[test]
fn lzfse_blocks_after_a_full_buffer_do_not_matter() {
    let mut data: Vec<u8> = vec![0; 64];
    data[..12].copy_from_slice(b"bvx-\x04\0\0\0abcd");
    data[12..16].copy_from_slice(b"bvx2");
    data[36..40].copy_from_slice(&33u32.to_le_bytes());

    let (buffer, count) = decompress(CompressionMethod::Lzfse, &data, 4).unwrap();
    assert_eq!(buffer, b"abcd");
    assert_eq!(count, 4);
    assert!(decompress(CompressionMethod::Lzfse, &data, 5).is_none());
}

#[test]
fn lzfse_values_out_of_bounds_are_refused() {
    // A frequency that cannot be added to the number of states.
    let mut data: Vec<u8> = vec![0; 770];
    data[..4].copy_from_slice(b"bvx1");
    data[42..44].copy_from_slice(&0x8000u16.to_le_bytes());
    assert!(decompress(CompressionMethod::Lzfse, &data, 16).is_none());

    // Encoded frequencies that end after their header.
    let mut data: Vec<u8> = vec![0; 64];
    data[..4].copy_from_slice(b"bvx2");
    data[24..28].copy_from_slice(&33u32.to_le_bytes());
    assert!(decompress(CompressionMethod::Lzfse, &data, 16).is_none());
}

#[test]
fn bzip2_block_with_runs_is_decompressed() {
    let mut expected: Vec<u8> = Vec::new();
    for number in 0..120 {
        expected.extend_from_slice(format!("line {} of {}\n", number, number * number).as_bytes());
    }
    expected.extend_from_slice(&[0; 400]);
    let (buffer, count) = decompress(CompressionMethod::Bzip2, &bzip2_sample(), 2304).unwrap();

    assert_eq!(count, 2304);
    assert_eq!(buffer, expected);
}

fn decompress_damaged(method: CompressionMethod, sample: &[u8], step: usize) {
    for index in (4..sample.len()).step_by(step) {
        for mask in [0x10, 0xff] {
            let mut data: Vec<u8> = sample.to_vec();
            data[index] ^= mask;
            if let Some((buffer, count)) = decompress(method, &data, 4096) {
                assert_eq!(buffer.len(), 4096);
                assert!(count <= 4096);
            }
        }
    }
    for length in (0..sample.len()).step_by(4 * step) {
        if let Some((_, count)) = decompress(method, &sample[..length], 4096) {
            assert!(count <= 4096);
        }
    }
}

#[test]
fn damaged_bzip2_data_returns() {
    decompress_damaged(CompressionMethod::Bzip2, &bzip2_sample(), 11);
}

#[test]
fn damaged_lzfse_data_returns() {
    decompress_damaged(CompressionMethod::Lzfse, &lzfse_sample(), 3);
}

#[test]
fn uuids_are_parsed_in_all_their_forms() -> Result<(), DriverError> {
    let uuid = Uuid {
        part1: 0x0a0b0c0d,
        part2: 0x1,
        part3: 0xffff,
        part4: 0,
        part5: 0xabc,
    };

    assert_eq!(uuid.to_string(), "0a0b0c0d-0001-ffff-0000-000000000abc");
    assert_eq!(Uuid::from_string(&uuid.to_string())?, uuid);
    assert_eq!(
        Uuid::from_string("{0A0B0C0D-0001-FFFF-0000-000000000ABC}")?,
        uuid
    );
    assert_eq!(
        Uuid::from_string("+a0b0c0d-+001-ffff-0000-000000000abc")?,
        uuid
    );
    for text in [
        "",
        "{}",
        "0a0b0c0d-0001-ffff-0000-000000000ab",
        "0a0b0c0d 0001-ffff-0000-000000000abc",
        "0a0b0c0g-0001-ffff-0000-000000000abc",
        "-a0b0c0d-0001-ffff-0000-000000000abc",
    ] {
        assert_eq!(Uuid::from_string(text), Err(DriverError::Invalid));
    }
    Ok(())
}

#[test]
fn base64_bits_that_are_left_over_do_not_count() {
    assert_eq!(base64_decode(b"YQ"), Some(b"a".to_vec()));
    assert_eq!(base64_decode(b"YWI"), Some(b"ab".to_vec()));
    assert_eq!(base64_decode(b"Y"), Some(Vec::new()));
    assert_eq!(base64_decode(b"+/+/"), Some(vec![0xfb, 0xff, 0xbf]));
    assert_eq!(base64_decode(b"YQ==*"), Some(b"a".to_vec()));
    assert_eq!(base64_decode(b"YQ*"), None);
}
