//! Identifiers of formats.

use vstd::prelude::*;

verus! {

/// Format identifier.
#[derive(Clone, Copy, Debug, PartialEq, Eq, Hash, Structural)]
pub enum FormatIdentifier {
    Apm,
    Ewf,
    Ext,
    Fat,
    Gpt,
    Hfs,
    Mbr,
    Ntfs,
    Pdi,
    Qcow,
    SparseImage,
    SplitRaw,
    Udif,
    Unknown,
    Vhd,
    Vhdx,
    Vmdk,
    Xfs,
}

impl FormatIdentifier {
    /// The name of the format.
    pub open spec fn spec_name(self) -> Seq<char> {
        match self {
            FormatIdentifier::Apm => "apm"@,
            FormatIdentifier::Ewf => "ewf"@,
            FormatIdentifier::Ext => "ext"@,
            FormatIdentifier::Fat => "fat"@,
            FormatIdentifier::Gpt => "gpt"@,
            FormatIdentifier::Hfs => "hfs"@,
            FormatIdentifier::Mbr => "mbr"@,
            FormatIdentifier::Ntfs => "ntfs"@,
            FormatIdentifier::Pdi => "pdi"@,
            FormatIdentifier::Qcow => "qcow"@,
            FormatIdentifier::SparseImage => "sparseimage"@,
            FormatIdentifier::SplitRaw => "splitraw"@,
            FormatIdentifier::Udif => "udif"@,
            FormatIdentifier::Unknown => "unknown"@,
            FormatIdentifier::Vhd => "vhd"@,
            FormatIdentifier::Vhdx => "vhdx"@,
            FormatIdentifier::Vmdk => "vmdk"@,
            FormatIdentifier::Xfs => "xfs"@,
        }
    }

    /// Retrieves the name of the format.
    pub fn to_string(&self) -> (name: String)
        ensures
            name@ == self.spec_name(),
    {
        let name: &str = match self {
            FormatIdentifier::Apm => "apm",
            FormatIdentifier::Ewf => "ewf",
            FormatIdentifier::Ext => "ext",
            FormatIdentifier::Fat => "fat",
            FormatIdentifier::Gpt => "gpt",
            FormatIdentifier::Hfs => "hfs",
            FormatIdentifier::Mbr => "mbr",
            FormatIdentifier::Ntfs => "ntfs",
            FormatIdentifier::Pdi => "pdi",
            FormatIdentifier::Qcow => "qcow",
            FormatIdentifier::SparseImage => "sparseimage",
            FormatIdentifier::SplitRaw => "splitraw",
            FormatIdentifier::Udif => "udif",
            FormatIdentifier::Unknown => "unknown",
            FormatIdentifier::Vhd => "vhd",
            FormatIdentifier::Vhdx => "vhdx",
            FormatIdentifier::Vmdk => "vmdk",
            FormatIdentifier::Xfs => "xfs",
        };
        name.to_owned()
    }
}

} // verus!
