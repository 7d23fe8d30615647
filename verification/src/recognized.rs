//! Formats that are found by the signatures of what their readers open.

use vstd::prelude::*;

use crate::bytes::{u16_be, u16_le, u32_be, u64_be};
use crate::filesystem::ext::superblock as ext_superblock;
use crate::filesystem::hfs::fork as hfs_fork;
use crate::filesystem::ntfs::boot_record as ntfs_boot_record;
use crate::filesystem::xfs::superblock as xfs_superblock;
use crate::format_identifier::FormatIdentifier;
use crate::image::ewf::section as ewf_section;
use crate::image::qcow;
use crate::image::sparseimage;
use crate::image::udif::file as udif_file;
use crate::image::vhd;
use crate::image::vhdx;
use crate::image::vmdk::sparse as vmdk_sparse;
use crate::scanner::{has_format, stands_in};
use crate::signature_scan::format_signatures;
use crate::source::data_source::Content;
use crate::uuid::Uuid;
use crate::volume::{gpt, mbr};

verus! {

/// The bytes of a value in big-endian order are its digits to the base 256, the first one the highest.
proof fn lemma_value_bytes(data: Seq<u8>, offset: int)
    ensures
        u16_be(data, offset) == 0x100 * data[offset] + data[offset + 1],
        u32_be(data, offset) == 0x100_0000 * data[offset] + 0x1_0000 * data[offset + 1] + 0x100
            * data[offset + 2] + data[offset + 3],
        u64_be(data, offset) == 0x1_0000_0000 * u32_be(data, offset) + u32_be(data, offset + 4),
{
}

/// Whether every byte of a content that can be read lies in front of its end.
pub open spec fn is_within_size(content: Content) -> bool {
    forall|k: int| #[trigger] content.bytes.contains_key(k) ==> k < content.size
}

proof fn lemma_stands(
    content: Content,
    format: FormatIdentifier,
    index: int,
    at: int,
    pattern: Seq<u8>,
)
    requires
        0 <= index < format_signatures(format).len(),
        format_signatures(format)[index].format == format,
        format_signatures(format)[index].pattern == pattern,
        if format_signatures(format)[index].at_end {
            format_signatures(format)[index].offset == content.size - at
        } else {
            format_signatures(format)[index].offset == at
        },
        0 <= at,
        0 < pattern.len(),
        is_within_size(content),
        content.has(at, pattern.len() as int),
        content.window(at, pattern.len()) == pattern,
    ensures
        has_format(format_signatures(format), content, format),
{
    assert(content.bytes.contains_key(at + pattern.len() - 1));
    assert(stands_in(format_signatures(format)[index], content));
}

/// A file that opens as a dynamic or fixed VHD has the signature of one.
pub proof fn lemma_vhd_recognized(content: Content)
    requires
        is_within_size(content),
        vhd::footer_of(content) is Ok,
    ensures
        has_format(format_signatures(FormatIdentifier::Vhd), content, FormatIdentifier::Vhd),
{
    let data = content.window(content.size - 512, 512);
    let signature = format_signatures(FormatIdentifier::Vhd)[0];
    lemma_value_bytes(data, 0);
    lemma_value_bytes(data, 4);
    let pattern = signature.pattern;
    assert(pattern.len() == 8);
    assert(content.window(content.size - 512, 8) =~= pattern);
    lemma_stands(content, FormatIdentifier::Vhd, 0, content.size - 512, pattern);
}

proof fn lemma_vhdx_start(content: Content, parent: Option<Uuid>)
    requires
        vhdx::image_of(content, parent) is Ok,
    ensures
        content.has(0, 8),
        u64_be(content.window(0, 0x1_0000), 0) == 0x7668_6478_6669_6c65,
{
    assert(content.exact(0, 0x1_0000) is Ok);
}

/// A file that opens as a VHDX has the signature of one.
pub proof fn lemma_vhdx_recognized(content: Content, parent: Option<Uuid>)
    requires
        is_within_size(content),
        vhdx::image_of(content, parent) is Ok,
    ensures
        has_format(format_signatures(FormatIdentifier::Vhdx), content, FormatIdentifier::Vhdx),
{
    lemma_vhdx_start(content, parent);
    lemma_vhdx_pattern(content);
}

proof fn lemma_vhdx_pattern(content: Content)
    requires
        is_within_size(content),
        content.has(0, 8),
        u64_be(content.window(0, 0x1_0000), 0) == 0x7668_6478_6669_6c65,
    ensures
        has_format(format_signatures(FormatIdentifier::Vhdx), content, FormatIdentifier::Vhdx),
{
    let data = content.window(0, 0x1_0000);
    let signature = format_signatures(FormatIdentifier::Vhdx)[0];
    lemma_value_bytes(data, 0);
    lemma_value_bytes(data, 4);
    let pattern = signature.pattern;
    assert(pattern.len() == 8);
    assert(content.window(0, 8) =~= pattern);
    lemma_stands(content, FormatIdentifier::Vhdx, 0, 0, pattern);
}

/// A file with a UDIF footer has the signature of one.
pub proof fn lemma_udif_recognized(content: Content)
    requires
        is_within_size(content),
        udif_file::footer_of(content) is Ok,
    ensures
        has_format(format_signatures(FormatIdentifier::Udif), content, FormatIdentifier::Udif),
{
    let data = content.window(content.size - 512, 512);
    let signature = format_signatures(FormatIdentifier::Udif)[0];
    lemma_value_bytes(data, 0);
    let pattern = signature.pattern;
    assert(pattern.len() == 4);
    assert(content.window(content.size - 512, 4) =~= pattern);
    lemma_stands(content, FormatIdentifier::Udif, 0, content.size - 512, pattern);
}

/// A segment file of EWF has the signature of one.
pub proof fn lemma_ewf_recognized(content: Content)
    requires
        is_within_size(content),
        ewf_section::segment_number_of(content) is Ok,
    ensures
        has_format(format_signatures(FormatIdentifier::Ewf), content, FormatIdentifier::Ewf),
{
    let data = content.window(0, 13);
    let signature = format_signatures(FormatIdentifier::Ewf)[0];
    lemma_value_bytes(data, 0);
    lemma_value_bytes(data, 4);
    let pattern = signature.pattern;
    assert(pattern.len() == 8);
    assert(content.window(0, 8) =~= pattern);
    lemma_stands(content, FormatIdentifier::Ewf, 0, 0, pattern);
}

/// A file that opens as a sparse image has the signature of one.
pub proof fn lemma_sparseimage_recognized(content: Content)
    requires
        is_within_size(content),
        sparseimage::image_of(content) is Ok,
    ensures
        has_format(
            format_signatures(FormatIdentifier::SparseImage),
            content,
            FormatIdentifier::SparseImage,
        ),
{
    let data = content.window(0, 4096);
    let signature = format_signatures(FormatIdentifier::SparseImage)[0];
    lemma_value_bytes(data, 0);
    let pattern = signature.pattern;
    assert(pattern.len() == 4);
    assert(content.window(0, 4) =~= pattern);
    lemma_stands(content, FormatIdentifier::SparseImage, 0, 0, pattern);
}

/// A sparse VMDK file has the signature of one.
pub proof fn lemma_vmdk_recognized(content: Content)
    requires
        is_within_size(content),
        vmdk_sparse::header_of(content) is Ok,
    ensures
        has_format(format_signatures(FormatIdentifier::Vmdk), content, FormatIdentifier::Vmdk),
{
    let data = content.window(0, 512);
    let signature = format_signatures(FormatIdentifier::Vmdk)[1];
    lemma_value_bytes(data, 0);
    let pattern = signature.pattern;
    assert(pattern.len() == 4);
    assert(content.window(0, 4) =~= pattern);
    lemma_stands(content, FormatIdentifier::Vmdk, 1, 0, pattern);
}

/// A file with a QCOW header has the signature of its version.
pub proof fn lemma_qcow_recognized(content: Content)
    requires
        is_within_size(content),
        qcow::header_of(content) is Ok,
    ensures
        has_format(format_signatures(FormatIdentifier::Qcow), content, FormatIdentifier::Qcow),
{
    let data = content.window(0, 112);
    let version = u32_be(data, 4);
    lemma_value_bytes(data, 0);
    lemma_value_bytes(data, 4);
    let index = version - 1;
    let signature = format_signatures(FormatIdentifier::Qcow)[index];
    let pattern = signature.pattern;
    assert(pattern.len() == 8);
    assert(content.window(0, 8) =~= pattern);
    lemma_stands(content, FormatIdentifier::Qcow, index, 0, pattern);
}

/// A source with a GPT header in its second sector has the signature of one, for each sector size.
pub proof fn lemma_gpt_recognized(content: Content, bytes_per_sector: u16)
    requires
        is_within_size(content),
        gpt::is_supported_sector_size(bytes_per_sector),
        gpt::header_at(content, bytes_per_sector as int, bytes_per_sector) is Ok,
    ensures
        has_format(format_signatures(FormatIdentifier::Gpt), content, FormatIdentifier::Gpt),
{
    let data = content.window(bytes_per_sector as int, bytes_per_sector as nat);
    lemma_value_bytes(data, 0);
    lemma_value_bytes(data, 4);
    let index = if bytes_per_sector == 512 {
        0int
    } else if bytes_per_sector == 1024 {
        1
    } else if bytes_per_sector == 2048 {
        2
    } else {
        3
    };
    let signature = format_signatures(FormatIdentifier::Gpt)[index];
    assert(signature.offset == bytes_per_sector);
    let pattern = signature.pattern;
    assert(pattern.len() == 8);
    assert(content.window(bytes_per_sector as int, 8) =~= pattern);
    lemma_stands(content, FormatIdentifier::Gpt, index, bytes_per_sector as int, pattern);
}

/// A source with a boot record has the signature of an MBR.
pub proof fn lemma_mbr_recognized(content: Content)
    requires
        is_within_size(content),
        mbr::boot_record_at(content, 0) is Ok,
    ensures
        has_format(format_signatures(FormatIdentifier::Mbr), content, FormatIdentifier::Mbr),
{
    let data = content.window(0, 512);
    let signature = format_signatures(FormatIdentifier::Mbr)[0];
    assert(u16_le(data, 510) == data[510] + 0x100 * data[511]);
    let pattern = signature.pattern;
    assert(pattern.len() == 2);
    assert(content.window(510, 2) =~= pattern);
    lemma_stands(content, FormatIdentifier::Mbr, 0, 510, pattern);
}

/// A source with an XFS superblock has the signature of XFS.
pub proof fn lemma_xfs_recognized(content: Content)
    requires
        is_within_size(content),
        xfs_superblock::superblock_of(content) is Ok,
    ensures
        has_format(format_signatures(FormatIdentifier::Xfs), content, FormatIdentifier::Xfs),
{
    let data = content.window(0, 512);
    let signature = format_signatures(FormatIdentifier::Xfs)[0];
    lemma_value_bytes(data, 0);
    let pattern = signature.pattern;
    assert(pattern.len() == 4);
    assert(content.window(0, 4) =~= pattern);
    lemma_stands(content, FormatIdentifier::Xfs, 0, 0, pattern);
}

/// A source with an NTFS boot record has the signature of NTFS.
pub proof fn lemma_ntfs_recognized(content: Content)
    requires
        is_within_size(content),
        ntfs_boot_record::geometry_of(content) is Ok,
    ensures
        has_format(format_signatures(FormatIdentifier::Ntfs), content, FormatIdentifier::Ntfs),
{
    let data = content.window(0, 512);
    let signature = format_signatures(FormatIdentifier::Ntfs)[0];
    lemma_value_bytes(data, 3);
    lemma_value_bytes(data, 7);
    let pattern = signature.pattern;
    assert(pattern.len() == 8);
    assert(content.window(3, 8) =~= pattern);
    lemma_stands(content, FormatIdentifier::Ntfs, 0, 3, pattern);
}

/// A source with an HFS volume header has the signature of one of the formats of HFS.
pub proof fn lemma_hfs_recognized(content: Content)
    requires
        is_within_size(content),
        hfs_fork::header_of(content) is Ok,
    ensures
        has_format(format_signatures(FormatIdentifier::Hfs), content, FormatIdentifier::Hfs),
{
    let data = content.window(1024, 512);
    lemma_value_bytes(data, 0);
    let index = if u16_be(data, 0) == 0x4244 {
        0int
    } else if u16_be(data, 0) == 0x482b {
        1
    } else {
        2
    };
    let signature = format_signatures(FormatIdentifier::Hfs)[index];
    let pattern = signature.pattern;
    assert(pattern.len() == 2);
    assert(content.window(1024, 2) =~= pattern);
    lemma_stands(content, FormatIdentifier::Hfs, index, 1024, pattern);
}

/// A source with an ext superblock has the signature of ext.
pub proof fn lemma_ext_recognized(content: Content)
    requires
        is_within_size(content),
        ext_superblock::opened_volume(content) is Ok,
    ensures
        has_format(format_signatures(FormatIdentifier::Ext), content, FormatIdentifier::Ext),
{
    let data = content.window(1024, 1024);
    let signature = format_signatures(FormatIdentifier::Ext)[0];
    assert(u16_le(data, 56) == data[56] + 0x100 * data[57]);
    let pattern = signature.pattern;
    assert(pattern.len() == 2);
    assert(content.window(1080, 2) =~= pattern);
    lemma_stands(content, FormatIdentifier::Ext, 0, 1080, pattern);
}

} // verus!
