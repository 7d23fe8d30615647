//! Scanning buffers for signatures.

use keramics_sigscan::{PatternType, ScanContext, Scanner, Signature};
use vstd::prelude::*;

use crate::format_identifier::FormatIdentifier;

verus! {

/// A signature of a format: a pattern at an offset from the start of data, or from its end.
pub struct SignatureInfo {
    pub label: Seq<char>,
    pub format: FormatIdentifier,
    pub at_end: bool,
    pub offset: nat,
    pub pattern: Seq<u8>,
}

/// The parts of a signature that are scanned for: its label, whether its offset is one from the
/// end, its offset and its pattern.
pub open spec fn scanned_part(signature: SignatureInfo) -> (Seq<char>, bool, nat, Seq<u8>) {
    (signature.label, signature.at_end, signature.offset, signature.pattern)
}

/// The parts of signatures that are scanned for.
pub open spec fn scanned_parts(signatures: Seq<SignatureInfo>) -> Seq<
    (Seq<char>, bool, nat, Seq<u8>),
> {
    Seq::new(signatures.len(), |i: int| scanned_part(signatures[i]))
}

/// The signature with the given parts.
pub open spec fn signature(
    label: Seq<char>,
    format: FormatIdentifier,
    at_end: bool,
    offset: nat,
    pattern: Seq<u8>,
) -> SignatureInfo {
    SignatureInfo { label, format, at_end, offset, pattern }
}

/// The signatures of a format.
pub open spec fn format_signatures(format: FormatIdentifier) -> Seq<SignatureInfo> {
    match format {
        FormatIdentifier::Apm => seq![
            signature(
                "apm1"@,
                format,
                false,
                560,
                seq![
                    0x41, 0x70, 0x70, 0x6c, 0x65, 0x5f, 0x70, 0x61, 0x72, 0x74, 0x69, 0x74, 0x69,
                    0x6f, 0x6e, 0x5f, 0x6d, 0x61, 0x70, 0x00, 0x00, 0x00, 0x00, 0x00, 0x00, 0x00,
                    0x00, 0x00, 0x00, 0x00, 0x00, 0x00,
                ],
            ),
        ],
        FormatIdentifier::Ewf => seq![
            signature(
                "ewf1"@,
                format,
                false,
                0,
                seq![0x45, 0x56, 0x46, 0x09, 0x0d, 0x0a, 0xff, 0x00],
            ),
        ],
        FormatIdentifier::Ext => seq![signature("ext1"@, format, false, 1080, seq![0x53, 0xef])],
        FormatIdentifier::Fat => seq![
            signature(
                "fat1"@,
                format,
                false,
                54,
                seq![0x46, 0x41, 0x54, 0x31, 0x32, 0x20, 0x20, 0x20],
            ),
            signature(
                "fat2"@,
                format,
                false,
                54,
                seq![0x46, 0x41, 0x54, 0x31, 0x36, 0x20, 0x20, 0x20],
            ),
            signature(
                "fat3"@,
                format,
                false,
                82,
                seq![0x46, 0x41, 0x54, 0x33, 0x32, 0x20, 0x20, 0x20],
            ),
        ],
        FormatIdentifier::Gpt => {
            let pattern = seq![0x45u8, 0x46, 0x49, 0x20, 0x50, 0x41, 0x52, 0x54];
            seq![
                signature("gpt1"@, format, false, 512, pattern),
                signature("gpt2"@, format, false, 1024, pattern),
                signature("gpt3"@, format, false, 2048, pattern),
                signature("gpt4"@, format, false, 4096, pattern),
            ]
        },
        FormatIdentifier::Hfs => seq![
            signature("hfs1"@, format, false, 1024, seq![0x42, 0x44]),
            signature("hfs2"@, format, false, 1024, seq![0x48, 0x2b]),
            signature("hfs3"@, format, false, 1024, seq![0x48, 0x58]),
        ],
        FormatIdentifier::Mbr => seq![
            signature("mbr1"@, format, false, 510, seq![0x55, 0xaa]),
            signature("mbr2"@, format, false, 1022, seq![0x55, 0xaa]),
            signature("mbr3"@, format, false, 2046, seq![0x55, 0xaa]),
            signature("mbr4"@, format, false, 4094, seq![0x55, 0xaa]),
        ],
        FormatIdentifier::Ntfs => seq![
            signature(
                "ntfs1"@,
                format,
                false,
                3,
                seq![0x4e, 0x54, 0x46, 0x53, 0x20, 0x20, 0x20, 0x20],
            ),
        ],
        FormatIdentifier::Pdi => seq![
            signature(
                "pdi1"@,
                format,
                false,
                39,
                seq![
                    0x3c, 0x50, 0x61, 0x72, 0x61, 0x6c, 0x6c, 0x65, 0x6c, 0x73, 0x5f, 0x64, 0x69,
                    0x73, 0x6b, 0x5f, 0x69, 0x6d, 0x61, 0x67, 0x65, 0x20,
                ],
            ),
        ],
        FormatIdentifier::Qcow => seq![
            signature(
                "qcow1"@,
                format,
                false,
                0,
                seq![0x51, 0x46, 0x49, 0xfb, 0x00, 0x00, 0x00, 0x01],
            ),
            signature(
                "qcow2"@,
                format,
                false,
                0,
                seq![0x51, 0x46, 0x49, 0xfb, 0x00, 0x00, 0x00, 0x02],
            ),
            signature(
                "qcow3"@,
                format,
                false,
                0,
                seq![0x51, 0x46, 0x49, 0xfb, 0x00, 0x00, 0x00, 0x03],
            ),
        ],
        FormatIdentifier::SparseImage => seq![
            signature("sparseimage1"@, format, false, 0, seq![0x73, 0x70, 0x72, 0x73]),
        ],
        FormatIdentifier::Udif => seq![
            signature("udif1"@, format, true, 512, seq![0x6b, 0x6f, 0x6c, 0x79]),
        ],
        FormatIdentifier::Vhd => seq![
            signature(
                "vhd1"@,
                format,
                true,
                512,
                seq![0x63, 0x6f, 0x6e, 0x65, 0x63, 0x74, 0x69, 0x78],
            ),
        ],
        FormatIdentifier::Vhdx => seq![
            signature(
                "vhdx1"@,
                format,
                false,
                0,
                seq![0x76, 0x68, 0x64, 0x78, 0x66, 0x69, 0x6c, 0x65],
            ),
        ],
        FormatIdentifier::Vmdk => seq![
            signature(
                "vmdk1"@,
                format,
                false,
                0,
                seq![
                    0x23, 0x20, 0x44, 0x69, 0x73, 0x6b, 0x20, 0x44, 0x65, 0x73, 0x63, 0x72, 0x69,
                    0x70, 0x74, 0x6f, 0x72, 0x46, 0x69, 0x6c, 0x65,
                ],
            ),
            signature("vmdk2"@, format, false, 0, seq![0x4b, 0x44, 0x4d, 0x56]),
        ],
        FormatIdentifier::Xfs => seq![
            signature("xfs1"@, format, false, 0, seq![0x58, 0x46, 0x53, 0x42]),
        ],
        FormatIdentifier::SplitRaw => Seq::empty(),
        FormatIdentifier::Unknown => Seq::empty(),
    }
}

/// Whether signatures are those of formats.
pub open spec fn all_known(signatures: Seq<SignatureInfo>) -> bool {
    forall|i: int|
        0 <= i < signatures.len() ==> format_signatures(
            (#[trigger] signatures[i]).format,
        ).contains(signatures[i])
}

/// Whether the parts are those of a signature of a format.
pub open spec fn is_known_part(part: (Seq<char>, bool, nat, Seq<u8>)) -> bool {
    exists|format: FormatIdentifier|
        (#[trigger] scanned_parts(format_signatures(format))).contains(part)
}

/// Whether the parts are those of signatures of formats, each of them once.
pub open spec fn are_known_parts(parts: Seq<(Seq<char>, bool, nat, Seq<u8>)>) -> bool {
    &&& forall|i: int| 0 <= i < parts.len() ==> is_known_part(#[trigger] parts[i])
    &&& labels_distinct(parts)
}

/// Whether no two signatures have the same label.
pub open spec fn labels_distinct(parts: Seq<(Seq<char>, bool, nat, Seq<u8>)>) -> bool {
    forall|i: int, j: int|
        0 <= i < j < parts.len() ==> (#[trigger] parts[i]).0 != (#[trigger] parts[j]).0
}

/// The place of a signature in data of a given size.
pub open spec fn place(
    part: (Seq<char>, bool, nat, Seq<u8>),
    data_size: int,
) -> int {
    if part.1 {
        data_size - part.2
    } else {
        part.2 as int
    }
}

/// Whether a signature stands at its place in data of a given size, of which a buffer holds what is
/// at an offset. The pattern may not be longer than the data.
pub open spec fn matches_in(
    part: (Seq<char>, bool, nat, Seq<u8>),
    data_size: int,
    data_offset: int,
    buffer: Seq<u8>,
) -> bool {
    let at = place(part, data_size) - data_offset;
    &&& place(part, data_size) >= 0
    &&& 0 <= at
    &&& at + part.3.len() <= buffer.len()
    &&& at + part.3.len() <= data_size
    &&& buffer.subrange(at, at + part.3.len()) == part.3
}

/// Whether a place and an identifier are those of a signature that stands there.
pub open spec fn is_match(
    parts: Seq<(Seq<char>, bool, nat, Seq<u8>)>,
    data_size: int,
    data_offset: int,
    buffer: Seq<u8>,
    found_at: int,
    identifier: Seq<char>,
) -> bool {
    exists|i: int|
        {
            &&& 0 <= i < parts.len()
            &&& (#[trigger] parts[i]).0 == identifier
            &&& matches_in(parts[i], data_size, data_offset, buffer)
            &&& place(parts[i], data_size) == found_at
        }
}

/// Whether there is a result at a place.
pub open spec fn has_place(results: Seq<(u64, String)>, place: int) -> bool {
    exists|k: int| 0 <= k < results.len() && (#[trigger] results[k]).0 == place
}

/// The size of the range at the start of data, or at its end, that signatures can stand in.
pub open spec fn range_size(parts: Seq<(Seq<char>, bool, nat, Seq<u8>)>, at_end: bool) -> nat
    decreases parts.len(),
{
    if parts.len() == 0 {
        0
    } else {
        let before = range_size(parts.drop_last(), at_end);
        let end = parts.last().2 + parts.last().3.len();
        if parts.last().1 == at_end && end > before {
            end
        } else {
            before
        }
    }
}

/// The signature scanner of the `keramics_sigscan` crate.
#[verifier::external_type_specification]
#[verifier::external_body]
pub struct ExScanner(keramics_sigscan::Scanner);

/// The signatures that a scanner holds: their identifiers, whether they are bound to the end, their
/// offsets and their patterns.
pub uninterp spec fn scanner_signatures(scanner: keramics_sigscan::Scanner) -> Seq<
    (Seq<char>, bool, nat, Seq<u8>),
>;

/// The signatures that the scan trees of a scanner were built of.
pub uninterp spec fn built_signatures(scanner: keramics_sigscan::Scanner) -> Seq<
    (Seq<char>, bool, nat, Seq<u8>),
>;

/// Creates a scanner with `Scanner::new`. It holds no signatures, and its scan trees are empty.
#[verifier::external_body]
pub(crate) fn new_scanner() -> (scanner: Scanner)
    ensures
        scanner_signatures(scanner).len() == 0,
        built_signatures(scanner).len() == 0,
{
    Scanner::new()
}

/// Adds a signature, made with `Signature::new`, to a scanner with `Scanner::add_signature`. The
/// scan trees stay as they are.
#[verifier::external_body]
pub(crate) fn add_scan_signature(
    scanner: &mut Scanner,
    identifier: &str,
    at_end: bool,
    offset: usize,
    pattern: &[u8],
)
    ensures
        scanner_signatures(*final(scanner)) == scanner_signatures(*old(scanner)).push(
            (identifier@, at_end, offset as nat, pattern@),
        ),
        built_signatures(*final(scanner)) == built_signatures(*old(scanner)),
{
    let pattern_type = if at_end {
        PatternType::BoundToEnd
    } else {
        PatternType::BoundToStart
    };
    scanner.add_signature(Signature::new(identifier, pattern_type, offset, pattern));
}

/// Builds the scan trees of the signatures of a scanner with `Scanner::build`. They have to be
/// signatures of formats, each of them once: the building of other trees need not end. Each of them
/// has a byte that no other one has at its place, so there is always an offset to go by, and the
/// building succeeds.
#[verifier::external_body]
pub(crate) fn build_scan_trees(scanner: &mut Scanner) -> (built: bool)
    requires
        are_known_parts(scanner_signatures(*old(scanner))),
        built_signatures(*old(scanner)).len() == 0,
    ensures
        built,
        built_signatures(*final(scanner)) == scanner_signatures(*old(scanner)),
{
    scanner.build().is_ok()
}

/// Retrieves the sizes of the ranges at the start and at the end of data that signatures can stand
/// in, as `ScanContext::new` determines them from the scan trees.
#[verifier::external_body]
pub(crate) fn get_scan_ranges(scanner: &Scanner) -> (sizes: (u64, u64))
    requires
        are_known_parts(built_signatures(*scanner)),
    ensures
        sizes.0 == range_size(built_signatures(*scanner), false),
        sizes.1 == range_size(built_signatures(*scanner), true),
{
    let context = ScanContext::new(scanner, 0);
    (context.header_range_size, context.footer_range_size)
}

/// Scans a buffer that holds what is at an offset of data with `ScanContext::scan_buffer`. Every
/// result is the place and the identifier of a signature that stands there, and no two results have
/// the same place. In a buffer from the start of data no place of a signature that is bound to the
/// start is missed, and in one that holds the range at the end of data no place of a signature that
/// is bound to the end. Of the signatures bound otherwise, and in other buffers, some can be missed;
/// which ones is not said. A buffer of one byte is left out, as is one that goes beyond the data
/// where no signature is bound to the end.
#[verifier::external_body]
pub(crate) fn scan_buffer(scanner: &Scanner, data_size: u64, data_offset: u64, buffer: &[u8]) -> (results:
    Vec<(u64, String)>)
    requires
        are_known_parts(built_signatures(*scanner)),
        buffer@.len() != 1,
        data_offset + buffer@.len() <= u64::MAX,
        data_offset + buffer@.len() <= data_size || range_size(built_signatures(*scanner), true) > 0,
    ensures
        forall|k: int|
            0 <= k < results@.len() ==> is_match(
                built_signatures(*scanner),
                data_size as int,
                data_offset as int,
                buffer@,
                (#[trigger] results@[k]).0 as int,
                results@[k].1@,
            ),
        forall|j: int, k: int|
            0 <= j < k < results@.len() ==> (#[trigger] results@[j]).0 != (
            #[trigger] results@[k]).0,
        forall|i: int|
            0 <= i < built_signatures(*scanner).len() && matches_in(
                #[trigger] built_signatures(*scanner)[i],
                data_size as int,
                data_offset as int,
                buffer@,
            ) && (if built_signatures(*scanner)[i].1 {
                buffer@.len() == range_size(built_signatures(*scanner), true) && data_offset
                    + buffer@.len() == data_size
            } else {
                data_offset == 0
            }) ==> has_place(results@, place(built_signatures(*scanner)[i], data_size as int)),
{
    let mut context = ScanContext::new(scanner, data_size);
    context.data_offset = data_offset;
    context.scan_buffer(buffer);
    let results = context.results.iter();
    results.map(|(offset, signature)| (*offset, signature.identifier.clone())).collect()
}

} // verus!
