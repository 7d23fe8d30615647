//! Scanner for formats.

use keramics_sigscan::Scanner;
use vstd::prelude::*;

use crate::error::DriverError;
use crate::format_identifier::FormatIdentifier;
use crate::scan::same_text;
use crate::signature_scan::{
    add_scan_signature, all_known, are_known_parts, build_scan_trees, built_signatures,
    format_signatures, get_scan_ranges, has_place, is_known_part, is_match, matches_in, new_scanner,
    place, range_size, scan_buffer, scanned_part, scanned_parts, scanner_signatures, signature,
    SignatureInfo,
};
use crate::source::data_source::{Content, DataSource, DataSourceReference};
use crate::text::text_chars;

verus! {

/// Whether a pattern starts with another one, or the other one with it.
pub open spec fn patterns_agree(pattern: Seq<u8>, other: Seq<u8>) -> bool {
    forall|k: int| 0 <= k < pattern.len() && k < other.len() ==> pattern[k] == other[k]
}

/// Whether two signatures have the same label or can stand at the same place.
pub open spec fn collide(one: SignatureInfo, other: SignatureInfo) -> bool {
    ||| one.label == other.label
    ||| {
        &&& one.at_end != other.at_end || one.offset == other.offset
        &&& patterns_agree(one.pattern, other.pattern)
    }
}

/// Whether any two of the signatures have the same label or can stand at the same place, as those
/// of a format do that was added twice.
pub open spec fn any_collide(signatures: Seq<SignatureInfo>) -> bool {
    exists|i: int, j: int|
        0 <= i < j < signatures.len() && collide(
            #[trigger] signatures[i],
            #[trigger] signatures[j],
        )
}

/// Whether a signature stands at its place in a content.
pub open spec fn stands_in(signature: SignatureInfo, content: Content) -> bool {
    let at = place(scanned_part(signature), content.size as int);
    &&& 0 <= at
    &&& at + signature.pattern.len() <= content.size
    &&& content.window(at, signature.pattern.len()) == signature.pattern
}

/// Whether a signature of a format stands at its place in a content.
pub open spec fn has_format(
    signatures: Seq<SignatureInfo>,
    content: Content,
    format: FormatIdentifier,
) -> bool {
    exists|i: int|
        0 <= i < signatures.len() && (#[trigger] signatures[i]).format == format && stands_in(
            signatures[i],
            content,
        )
}

/// Whether a format is one of those that signatures belong to.
pub open spec fn is_format_of(signatures: Seq<SignatureInfo>, format: FormatIdentifier) -> bool {
    exists|i: int| 0 <= i < signatures.len() && (#[trigger] signatures[i]).format == format
}

/// The signatures of all formats.
pub open spec fn default_signatures() -> Seq<SignatureInfo> {
    format_signatures(FormatIdentifier::Apm)
        + format_signatures(FormatIdentifier::Ewf)
        + format_signatures(FormatIdentifier::Ext)
        + format_signatures(FormatIdentifier::Fat)
        + format_signatures(FormatIdentifier::Gpt)
        + format_signatures(FormatIdentifier::Hfs)
        + format_signatures(FormatIdentifier::Mbr)
        + format_signatures(FormatIdentifier::Ntfs)
        + format_signatures(FormatIdentifier::Pdi)
        + format_signatures(FormatIdentifier::Qcow)
        + format_signatures(FormatIdentifier::SparseImage)
        + format_signatures(FormatIdentifier::Udif)
        + format_signatures(FormatIdentifier::Vhd)
        + format_signatures(FormatIdentifier::Vhdx)
        + format_signatures(FormatIdentifier::Vmdk)
        + format_signatures(FormatIdentifier::Xfs)
}

/// Whether every read of a data source succeeds and gives all bytes of it.
pub open spec fn is_whole(data_source: DataSourceReference) -> bool {
    &&& data_source.reliable()
    &&& data_source.exhaustive()
    &&& data_source.content().has(0, data_source.content().size as int)
}

/// Whether the format of every signature that is bound to the start and stands in a content is one
/// of `formats`.
pub open spec fn has_start_formats(
    signatures: Seq<SignatureInfo>,
    content: Content,
    formats: Seq<FormatIdentifier>,
) -> bool {
    forall|i: int|
        0 <= i < signatures.len() && !(#[trigger] signatures[i]).at_end && stands_in(
            signatures[i],
            content,
        ) ==> formats.contains(signatures[i].format)
}

/// Whether every one of `formats` has a signature that stands in a content.
pub open spec fn formats_stand(
    signatures: Seq<SignatureInfo>,
    content: Content,
    formats: Seq<FormatIdentifier>,
) -> bool {
    forall|k: int|
        0 <= k < formats.len() ==> has_format(signatures, content, #[trigger] formats[k])
}

/// Whether a content can be read as a whole and is no smaller than the range at its end that
/// signatures can stand in.
pub open spec fn is_scannable(signatures: Seq<SignatureInfo>, content: Content) -> bool {
    &&& content.has(0, content.size as int)
    &&& range_size(scanned_parts(signatures), true) <= content.size
}

/// Signature of a format.
pub struct FormatSignature {
    label: String,
    format: FormatIdentifier,
    at_end: bool,
    offset: usize,
    pattern: Vec<u8>,
}

impl FormatSignature {
    /// The signature.
    pub closed spec fn view(&self) -> SignatureInfo {
        SignatureInfo {
            label: self.label@,
            format: self.format,
            at_end: self.at_end,
            offset: self.offset as nat,
            pattern: self.pattern@,
        }
    }

    fn new(label: &str, format: FormatIdentifier, at_end: bool, offset: usize, pattern: Vec<u8>) -> (result:
        Self)
        ensures
            result@ == signature(label@, format, at_end, offset as nat, pattern@),
    {
        FormatSignature { label: label.to_owned(), format, at_end, offset, pattern }
    }

    fn copy(&self) -> (copy: Self)
        ensures
            copy@ == self@,
    {
        let pattern: Vec<u8> = vstd::slice::slice_to_vec(self.pattern.as_slice());
        FormatSignature {
            label: self.label.as_str().to_owned(),
            format: self.format,
            at_end: self.at_end,
            offset: self.offset,
            pattern,
        }
    }

    fn collides(&self, other: &FormatSignature) -> (result: bool)
        ensures
            result == collide(self@, other@),
    {
        let label: Vec<char> = text_chars(self.label.as_str());
        let other_label: Vec<char> = text_chars(other.label.as_str());
        if same_text(label.as_slice(), other_label.as_slice()) {
            return true;
        }
        if self.at_end == other.at_end && self.offset != other.offset {
            return false;
        }
        let mut index: usize = 0;
        while index < self.pattern.len() && index < other.pattern.len()
            invariant
                index <= self.pattern@.len(),
                index <= other.pattern@.len(),
                forall|k: int| 0 <= k < index ==> self.pattern@[k] == other.pattern@[k],
                self@.label != other@.label,
                self.at_end != other.at_end || self.offset == other.offset,
            decreases self.pattern@.len() - index,
        {
            if self.pattern[index] != other.pattern[index] {
                assert(self@.pattern[index as int] != other@.pattern[index as int]);
                return false;
            }
            index += 1;
        }
        true
    }
}

/// What signatures are.
pub open spec fn signatures_view(signatures: Seq<FormatSignature>) -> Seq<SignatureInfo> {
    Seq::new(signatures.len(), |i: int| signatures[i]@)
}

fn check_collisions(signatures: &Vec<FormatSignature>) -> (result: bool)
    ensures
        result == any_collide(signatures_view(signatures@)),
{
    let ghost views = signatures_view(signatures@);
    let mut index: usize = 0;
    while index < signatures.len()
        invariant
            index <= signatures@.len(),
            views == signatures_view(signatures@),
            forall|i: int, j: int|
                0 <= i < j < index ==> !collide(#[trigger] views[i], #[trigger] views[j]),
        decreases signatures@.len() - index,
    {
        let mut before: usize = 0;
        while before < index
            invariant
                before <= index < signatures@.len(),
                views == signatures_view(signatures@),
                forall|i: int|
                    0 <= i < before ==> !collide(#[trigger] views[i], views[index as int]),
            decreases index - before,
        {
            if signatures[before].collides(&signatures[index]) {
                assert(collide(views[before as int], views[index as int]));
                return true;
            }
            before += 1;
        }
        index += 1;
    }
    false
}

/// A scanner whose scan trees were built, and the signatures that they were built of.
pub struct BuiltScanner {
    scanner: Scanner,
    signatures: Vec<FormatSignature>,
}

/// Signatures that do not collide have different labels.
proof fn lemma_known_parts(signatures: Seq<SignatureInfo>)
    requires
        all_known(signatures),
        !any_collide(signatures),
    ensures
        are_known_parts(scanned_parts(signatures)),
{
    let parts = scanned_parts(signatures);
    assert forall|i: int| 0 <= i < parts.len() implies is_known_part(#[trigger] parts[i]) by {
        let format = signatures[i].format;
        let all = format_signatures(format);
        assert(all.contains(signatures[i]));
        let k = choose|k: int| 0 <= k < all.len() && all[k] == signatures[i];
        assert(scanned_parts(all)[k] == parts[i]);
        assert(scanned_parts(format_signatures(format)).contains(parts[i]));
    }
    assert forall|i: int, j: int| 0 <= i < j < parts.len() implies (#[trigger] parts[i]).0 != (
    #[trigger] parts[j]).0 by {
        assert(!collide(signatures[i], signatures[j]));
    }
}

/// Two signatures that stand at the same place collide.
proof fn lemma_same_place(
    one: SignatureInfo,
    other: SignatureInfo,
    data_size: int,
    data_offset: int,
    buffer: Seq<u8>,
)
    requires
        matches_in(scanned_part(one), data_size, data_offset, buffer),
        matches_in(scanned_part(other), data_size, data_offset, buffer),
        place(scanned_part(one), data_size) == place(scanned_part(other), data_size),
    ensures
        collide(one, other),
{
    let at = place(scanned_part(one), data_size) - data_offset;
    assert forall|k: int| 0 <= k < one.pattern.len() && k < other.pattern.len() implies
        one.pattern[k] == other.pattern[k] by {
        assert(buffer.subrange(at, at + one.pattern.len())[k] == buffer[at + k]);
        assert(buffer.subrange(at, at + other.pattern.len())[k] == buffer[at + k]);
    }
}

impl BuiltScanner {
    /// The signatures that the scan trees were built of.
    pub closed spec fn view(&self) -> Seq<SignatureInfo> {
        signatures_view(self.signatures@)
    }

    #[verifier::type_invariant]
    spec fn well_formed(self) -> bool {
        let signatures = signatures_view(self.signatures@);
        &&& built_signatures(self.scanner) == scanned_parts(signatures)
        &&& all_known(signatures)
        &&& are_known_parts(scanned_parts(signatures))
        &&& !any_collide(signatures)
    }

    fn new() -> (built: Self)
        ensures
            built@.len() == 0,
    {
        let scanner: Scanner = new_scanner();
        let signatures: Vec<FormatSignature> = Vec::new();
        assert(built_signatures(scanner) =~= scanned_parts(signatures_view(signatures@)));
        BuiltScanner { scanner, signatures }
    }

    fn build(signatures: &Vec<FormatSignature>) -> (result: Option<Self>)
        requires
            all_known(signatures_view(signatures@)),
        ensures
            match result {
                Some(built) => {
                    &&& !any_collide(signatures_view(signatures@))
                    &&& built@ == signatures_view(signatures@)
                },
                None => any_collide(signatures_view(signatures@)),
            },
    {
        if check_collisions(signatures) {
            return None;
        }
        let ghost views = signatures_view(signatures@);
        let mut scanner: Scanner = new_scanner();
        let mut copies: Vec<FormatSignature> = Vec::new();
        let mut index: usize = 0;
        assert(scanner_signatures(scanner) =~= scanned_parts(views).take(0));
        assert(signatures_view(copies@) =~= views.take(0));
        while index < signatures.len()
            invariant
                index <= signatures@.len(),
                views == signatures_view(signatures@),
                scanner_signatures(scanner) == scanned_parts(views).take(index as int),
                built_signatures(scanner).len() == 0,
                signatures_view(copies@) == views.take(index as int),
            decreases signatures@.len() - index,
        {
            let signature: &FormatSignature = &signatures[index];
            assert(views[index as int] == signature@);
            let ghost before = scanner_signatures(scanner);
            let ghost copied = signatures_view(copies@);
            add_scan_signature(
                &mut scanner,
                signature.label.as_str(),
                signature.at_end,
                signature.offset,
                signature.pattern.as_slice(),
            );
            let copy: FormatSignature = signature.copy();
            copies.push(copy);
            assert(scanned_parts(views).take(index + 1) =~= before.push(
                scanned_parts(views)[index as int],
            ));
            assert(signatures_view(copies@) =~= copied.push(views[index as int]));
            assert(views.take(index + 1) =~= copied.push(views[index as int]));
            index += 1;
        }
        assert(scanned_parts(views).take(index as int) =~= scanned_parts(views));
        assert(views.take(index as int) =~= views);
        proof {
            lemma_known_parts(views);
        }
        if !build_scan_trees(&mut scanner) {
            return None;
        }
        Some(BuiltScanner { scanner, signatures: copies })
    }

    fn scan(&self, data_size: u64, data_offset: u64, buffer: &[u8]) -> (results: Vec<(u64, String)>)
        requires
            data_offset + buffer@.len() <= u64::MAX,
            data_offset + buffer@.len() <= data_size || range_size(scanned_parts(self@), true) > 0,
        ensures
            results_sound(self@, data_size, data_offset, buffer@, results@),
            results_complete(self@, data_size, data_offset, buffer@, results@),
    {
        proof {
            use_type_invariant(self);
        }
        let ghost parts = scanned_parts(self@);
        if buffer.len() == 1 {
            let results: Vec<(u64, String)> = Vec::new();
            proof {
                assert forall|i: int| 0 <= i < self@.len() implies !matches_in(
                    #[trigger] parts[i],
                    data_size as int,
                    data_offset as int,
                    buffer@,
                ) by {
                    lemma_pattern_size(parts[i]);
                }
                assert forall|i: int| 0 <= i < self@.len() implies !matches_in(
                    scanned_part(#[trigger] self@[i]),
                    data_size as int,
                    data_offset as int,
                    buffer@,
                ) by {
                    assert(parts[i] == scanned_part(self@[i]));
                }
            }
            return results;
        }
        let results = scan_buffer(&self.scanner, data_size, data_offset, buffer);
        proof {
            let views = self@;
            assert(built_signatures(self.scanner) == parts);
            assert forall|k: int| 0 <= k < results@.len() implies is_result(
                views,
                data_size,
                data_offset,
                buffer@,
                #[trigger] results@[k],
            ) by {
                assert(is_match(
                    parts,
                    data_size as int,
                    data_offset as int,
                    buffer@,
                    results@[k].0 as int,
                    results@[k].1@,
                ));
                let i = choose|i: int|
                    {
                        &&& 0 <= i < parts.len()
                        &&& (#[trigger] parts[i]).0 == results@[k].1@
                        &&& matches_in(
                            parts[i],
                            data_size as int,
                            data_offset as int,
                            buffer@,
                        )
                        &&& place(parts[i], data_size as int) == results@[k].0
                    };
                assert(parts[i] == scanned_part(views[i]));
                assert(result_of(views[i], data_size, data_offset, buffer@, results@[k]));
            }
            assert forall|i: int|
                0 <= i < views.len() && is_covered(
                    views,
                    #[trigger] views[i],
                    data_size,
                    data_offset,
                    buffer@,
                ) implies has_result(views[i], data_size, data_offset, buffer@, results@) by {
                assert(parts[i] == scanned_part(views[i]));
                let at = place(parts[i], data_size as int);
                assert(has_place(results@, at));
                let k = choose|k: int| 0 <= k < results@.len() && (#[trigger] results@[k]).0 == at;
                assert(is_result(views, data_size, data_offset, buffer@, results@[k]));
                let j = choose|j: int|
                    0 <= j < views.len() && result_of(
                        #[trigger] views[j],
                        data_size,
                        data_offset,
                        buffer@,
                        results@[k],
                    );
                lemma_same_place(
                    views[i],
                    views[j],
                    data_size as int,
                    data_offset as int,
                    buffer@,
                );
                lemma_same_place(
                    views[j],
                    views[i],
                    data_size as int,
                    data_offset as int,
                    buffer@,
                );
                assert(i == j);
                assert(result_of(views[i], data_size, data_offset, buffer@, results@[k]));
            }
        }
        results
    }

    fn get_ranges(&self) -> (sizes: (u64, u64))
        ensures
            sizes.0 == range_size(scanned_parts(self@), false),
            sizes.1 == range_size(scanned_parts(self@), true),
            sizes.0 <= 4128,
            sizes.1 <= 4128,
    {
        proof {
            use_type_invariant(self);
            lemma_range_size(scanned_parts(self@), false);
            lemma_range_size(scanned_parts(self@), true);
        }
        get_scan_ranges(&self.scanner)
    }

    fn scan_data_source(&self, data_source: &DataSourceReference) -> (result: Result<
        Vec<FormatIdentifier>,
        DriverError,
    >)
        ensures
            match result {
                Ok(formats) => {
                    &&& formats@.no_duplicates()
                    &&& forall|k: int|
                        0 <= k < formats@.len() ==> is_format_of(self@, #[trigger] formats@[k])
                    &&& range_size(scanned_parts(self@), true) <= data_source.content().size
                        ==> formats_stand(self@, data_source.content(), formats@)
                    &&& is_whole(*data_source) ==> has_start_formats(
                        self@,
                        data_source.content(),
                        formats@,
                    )
                    &&& is_whole(*data_source) && is_scannable(self@, data_source.content())
                        ==> forall|format: FormatIdentifier|
                        #[trigger] formats@.contains(format) <==> has_format(
                            self@,
                            data_source.content(),
                            format,
                        )
                },
                Err(error) => !data_source.reliable(),
            },
    {
        let ghost content = data_source.content();
        let ghost whole_source = is_whole(*data_source);
        let ghost exact = whole_source && is_scannable(self@, content);
        let data_size: u64 = data_source.size()?;
        let (header_size, footer_size) = self.get_ranges();
        let mut header: Vec<u8> = vec![0; header_size as usize];
        let count: usize = data_source.read_at(0, header.as_mut_slice())?;
        let ghost whole = header@;
        let header_count: usize = if count as u64 <= data_size {
            count
        } else {
            data_size as usize
        };
        header.truncate(header_count);
        proof {
            assert(header@ =~= content.window(0, header_count as nat)) by {
                assert forall|k: int| 0 <= k < header_count implies whole[k]
                    == content.bytes[k] by {
                    assert(whole.take(count as int)[k] == content.window(0, count as nat)[k]);
                }
            }
            if whole_source && count < header_size {
                assert(!content.bytes.contains_key(count as int));
            }
        }
        let header_results = self.scan(data_size, 0, header.as_slice());

        let footer_offset: u64 = if footer_size < data_size {
            data_size - footer_size
        } else {
            0
        };
        let buffer_offset: usize = if footer_size < data_size {
            0
        } else {
            (footer_size - data_size) as usize
        };
        let mut footer: Vec<u8> = vec![0; footer_size as usize];
        let ghost zeros = footer@;
        let (_front, rest) = footer.as_mut_slice().split_at_mut(buffer_offset);
        let read_result = data_source.read_at(footer_offset, rest);
        let ghost rest_after = rest@;
        let read_count: usize = read_result?;
        let ghost filled = footer@;
        footer.truncate(buffer_offset + read_count);
        proof {
            if whole_source && buffer_offset > 0 {
                if read_count < data_size {
                    assert(content.bytes.contains_key(read_count as int));
                }
                assert forall|k: int| 0 <= k < footer_size implies footer@[k] == (if k
                    < buffer_offset {
                    0
                } else {
                    content.bytes[k - buffer_offset]
                }) by {
                    if k < buffer_offset {
                        assert(footer@[k] == zeros[k]);
                    } else {
                        let j = k - buffer_offset;
                        assert(footer@[k] == rest_after[j]);
                        assert(rest_after.take(read_count as int)[j] == content.window(
                            0,
                            read_count as nat,
                        )[j]);
                    }
                }
            }
            if exact {
                if read_count < footer_size {
                    assert(content.bytes.contains_key(footer_offset + read_count));
                }
            }
            if footer_size <= data_size {
                assert(buffer_offset == 0);
                assert(footer@ =~= content.window(footer_offset as int, footer@.len())) by {
                    assert forall|k: int| 0 <= k < read_count implies rest_after[k]
                        == content.bytes[footer_offset + k] by {
                        assert(rest_after.take(read_count as int)[k] == content.window(
                            footer_offset as int,
                            read_count as nat,
                        )[k]);
                    }
                }
            }
        }
        let footer_results = self.scan(data_size, footer_offset, footer.as_slice());

        let ghost views = self@;
        let mut formats: Vec<FormatIdentifier> = Vec::new();
        let mut index: usize = 0;
        proof {
            use_type_invariant(self);
        }
        while index < self.signatures.len()
            invariant
                index <= self.signatures@.len(),
                views == signatures_view(self.signatures@),
                formats@.no_duplicates(),
                forall|k: int|
                    0 <= k < formats@.len() ==> is_format_of(views, #[trigger] formats@[k]),
                forall|format: FormatIdentifier|
                    #[trigger] formats@.contains(format) <==> exists|i: int|
                        0 <= i < index && (#[trigger] views[i]).format == format && is_reported(
                            views[i].label,
                            header_results@,
                            footer_results@,
                        ),
            decreases self.signatures@.len() - index,
        {
            let signature: &FormatSignature = &self.signatures[index];
            assert(views[index as int] == signature@);
            let ghost before = formats@;
            if self.is_reported(signature, &header_results, &footer_results) {
                let format: FormatIdentifier = signature.format;
                if !contains_format(&formats, format) {
                    formats.push(format);
                    assert forall|other: FormatIdentifier|
                        #[trigger] formats@.contains(other) <==> before.contains(other) || other
                            == format by {
                        assert(formats@[before.len() as int] == format);
                        if before.contains(other) {
                            let k = choose|k: int| 0 <= k < before.len() && before[k] == other;
                            assert(formats@[k] == other);
                        }
                    }
                }
            }
            index += 1;
        }
        proof {
            if exact {
                assert forall|i: int| 0 <= i < views.len() implies is_reported(
                    (#[trigger] views[i]).label,
                    header_results@,
                    footer_results@,
                ) == stands_in(views[i], content) by {
                    lemma_reported(
                        views,
                        i,
                        content,
                        header@,
                        header_results@,
                        footer_offset,
                        footer@,
                        footer_results@,
                    );
                }
            }
        }
        proof {
            if footer_size <= data_size {
                assert forall|k: int| 0 <= k < formats@.len() implies has_format(
                    views,
                    content,
                    #[trigger] formats@[k],
                ) by {
                    assert(formats@.contains(formats@[k]));
                    let i = choose|i: int|
                        0 <= i < views.len() && (#[trigger] views[i]).format == formats@[k]
                            && is_reported(views[i].label, header_results@, footer_results@);
                    lemma_reported_stands(
                        views,
                        i,
                        content,
                        header@,
                        header_results@,
                        footer_offset,
                        footer@,
                        footer_results@,
                    );
                }
            }
            if whole_source {
                assert forall|i: int|
                    0 <= i < views.len() && !(#[trigger] views[i]).at_end && stands_in(
                        views[i],
                        content,
                    ) implies formats@.contains(views[i].format) by {
                    if buffer_offset > 0 {
                        let j = lemma_start_reported(
                            views,
                            i,
                            content,
                            header@,
                            header_results@,
                            footer@,
                            footer_results@,
                        );
                        assert(formats@.contains(views[j].format));
                    } else {
                        assert(is_reported(views[i].label, header_results@, footer_results@));
                    }
                }
            }
        }
        Ok(formats)
    }

    /// Whether a signature is among the results of the scan of the header and the footer. A result
    /// of the latter replaces one of the former at the same place.
    fn is_reported(
        &self,
        signature: &FormatSignature,
        header: &Vec<(u64, String)>,
        footer: &Vec<(u64, String)>,
    ) -> (reported: bool)
        ensures
            reported == is_reported(signature@.label, header@, footer@),
    {
        let label: Vec<char> = text_chars(signature.label.as_str());
        let mut index: usize = 0;
        while index < footer.len()
            invariant
                index <= footer@.len(),
                label@ == signature@.label,
                forall|k: int| 0 <= k < index ==> (#[trigger] footer@[k]).1@ != signature@.label,
            decreases footer@.len() - index,
        {
            let found: Vec<char> = text_chars(footer[index].1.as_str());
            if same_text(found.as_slice(), label.as_slice()) {
                assert(footer@[index as int].1@ == signature@.label);
                return true;
            }
            index += 1;
        }
        let mut index: usize = 0;
        while index < header.len()
            invariant
                index <= header@.len(),
                label@ == signature@.label,
                forall|k: int|
                    0 <= k < footer@.len() ==> (#[trigger] footer@[k]).1@ != signature@.label,
                forall|k: int|
                    0 <= k < index ==> !((#[trigger] header@[k]).1@ == signature@.label
                        && !has_place(footer@, header@[k].0 as int)),
            decreases header@.len() - index,
        {
            let found: Vec<char> = text_chars(header[index].1.as_str());
            if same_text(found.as_slice(), label.as_slice()) && !check_place(
                footer,
                header[index].0,
            ) {
                assert(header@[index as int].1@ == signature@.label);
                return true;
            }
            index += 1;
        }
        false
    }
}

/// Whether a label is among the results of the scan of a header and a footer. A result of the latter
/// replaces one of the former at the same place.
pub open spec fn is_reported(
    label: Seq<char>,
    header: Seq<(u64, String)>,
    footer: Seq<(u64, String)>,
) -> bool {
    ||| exists|k: int| 0 <= k < footer.len() && (#[trigger] footer[k]).1@ == label
    ||| exists|k: int|
        0 <= k < header.len() && (#[trigger] header[k]).1@ == label && !has_place(
            footer,
            header[k].0 as int,
        )
}

fn check_place(results: &Vec<(u64, String)>, place: u64) -> (found: bool)
    ensures
        found == has_place(results@, place as int),
{
    let mut index: usize = 0;
    while index < results.len()
        invariant
            index <= results@.len(),
            forall|k: int| 0 <= k < index ==> (#[trigger] results@[k]).0 != place,
        decreases results@.len() - index,
    {
        if results[index].0 == place {
            return true;
        }
        index += 1;
    }
    false
}

fn contains_format(formats: &Vec<FormatIdentifier>, format: FormatIdentifier) -> (found: bool)
    ensures
        found == formats@.contains(format),
{
    let mut index: usize = 0;
    while index < formats.len()
        invariant
            index <= formats@.len(),
            forall|k: int| 0 <= k < index ==> formats@[k] != format,
        decreases formats@.len() - index,
    {
        if formats[index] == format {
            return true;
        }
        index += 1;
    }
    false
}

/// Whether a result is that of a signature which stands at its place.
pub open spec fn result_of(
    signature: SignatureInfo,
    data_size: u64,
    data_offset: u64,
    buffer: Seq<u8>,
    result: (u64, String),
) -> bool {
    &&& signature.label == result.1@
    &&& matches_in(scanned_part(signature), data_size as int, data_offset as int, buffer)
    &&& result.0 == place(scanned_part(signature), data_size as int)
}

/// Whether a result is that of one of the signatures.
pub open spec fn is_result(
    signatures: Seq<SignatureInfo>,
    data_size: u64,
    data_offset: u64,
    buffer: Seq<u8>,
    result: (u64, String),
) -> bool {
    exists|i: int|
        0 <= i < signatures.len() && result_of(
            #[trigger] signatures[i],
            data_size,
            data_offset,
            buffer,
            result,
        )
}

/// Whether one of the results is that of a signature.
pub open spec fn has_result(
    signature: SignatureInfo,
    data_size: u64,
    data_offset: u64,
    buffer: Seq<u8>,
    results: Seq<(u64, String)>,
) -> bool {
    exists|k: int|
        0 <= k < results.len() && result_of(
            signature,
            data_size,
            data_offset,
            buffer,
            #[trigger] results[k],
        )
}

/// Whether a signature stands in a buffer in which none of its kind is missed.
pub open spec fn is_covered(
    signatures: Seq<SignatureInfo>,
    signature: SignatureInfo,
    data_size: u64,
    data_offset: u64,
    buffer: Seq<u8>,
) -> bool {
    &&& matches_in(scanned_part(signature), data_size as int, data_offset as int, buffer)
    &&& if signature.at_end {
        buffer.len() == range_size(scanned_parts(signatures), true) && data_offset + buffer.len()
            == data_size
    } else {
        data_offset == 0
    }
}

/// Whether every result is that of a signature which stands at its place.
pub open spec fn results_sound(
    signatures: Seq<SignatureInfo>,
    data_size: u64,
    data_offset: u64,
    buffer: Seq<u8>,
    results: Seq<(u64, String)>,
) -> bool {
    forall|k: int|
        0 <= k < results.len() ==> is_result(
            signatures,
            data_size,
            data_offset,
            buffer,
            #[trigger] results[k],
        )
}

/// Whether there is a result for every signature that stands where none of its kind is missed.
pub open spec fn results_complete(
    signatures: Seq<SignatureInfo>,
    data_size: u64,
    data_offset: u64,
    buffer: Seq<u8>,
    results: Seq<(u64, String)>,
) -> bool {
    forall|i: int|
        0 <= i < signatures.len() && is_covered(
            signatures,
            #[trigger] signatures[i],
            data_size,
            data_offset,
            buffer,
        ) ==> has_result(signatures[i], data_size, data_offset, buffer, results)
}

/// Every pattern has at least two bytes, and ends where an offset can be given.
proof fn lemma_pattern_size(part: (Seq<char>, bool, nat, Seq<u8>))
    requires
        is_known_part(part),
    ensures
        2 <= part.3.len() <= 32,
        part.2 <= 4096,
{
    let format = choose|format: FormatIdentifier|
        (#[trigger] scanned_parts(format_signatures(format))).contains(part);
    let all = format_signatures(format);
    let k = choose|k: int| 0 <= k < scanned_parts(all).len() && scanned_parts(all)[k] == part;
    assert(all[k].pattern == part.3 && all[k].offset == part.2);
}

/// The ranges that signatures can stand in are small.
proof fn lemma_range_size(parts: Seq<(Seq<char>, bool, nat, Seq<u8>)>, at_end: bool)
    requires
        forall|i: int| 0 <= i < parts.len() ==> is_known_part(#[trigger] parts[i]),
    ensures
        range_size(parts, at_end) <= 4128,
        forall|i: int|
            0 <= i < parts.len() && (#[trigger] parts[i]).1 == at_end ==> parts[i].2
                + parts[i].3.len() <= range_size(parts, at_end),
    decreases parts.len(),
{
    if parts.len() > 0 {
        let front = parts.drop_last();
        assert forall|i: int| 0 <= i < front.len() implies is_known_part(#[trigger] front[i]) by {
            assert(front[i] == parts[i]);
        }
        lemma_range_size(front, at_end);
        lemma_pattern_size(parts.last());
        assert(parts.last() == parts[parts.len() - 1]);
        assert forall|i: int| 0 <= i < parts.len() && (#[trigger] parts[i]).1 == at_end implies
            parts[i].2 + parts[i].3.len() <= range_size(parts, at_end) by {
            if i < front.len() {
                assert(front[i] == parts[i]);
            }
        }
    }
}

/// A result of the scan of the header or the footer stands in the content.
proof fn lemma_result_stands(
    signature: SignatureInfo,
    content: Content,
    data_offset: u64,
    buffer: Seq<u8>,
)
    requires
        content.size <= u64::MAX,
        data_offset + buffer.len() <= content.size,
        buffer == content.window(data_offset as int, buffer.len()),
        matches_in(
            scanned_part(signature),
            content.size as int,
            data_offset as int,
            buffer,
        ),
    ensures
        stands_in(signature, content),
{
    let at = place(scanned_part(signature), content.size as int) - data_offset;
    let count = signature.pattern.len();
    assert(content.window(at + data_offset, count) =~= buffer.subrange(at, at + count));
}

/// A signature that stands in the content stands in the buffer that covers its place.
proof fn lemma_stands_in_buffer(
    signature: SignatureInfo,
    content: Content,
    data_offset: u64,
    buffer: Seq<u8>,
)
    requires
        stands_in(signature, content),
        data_offset + buffer.len() <= content.size,
        buffer == content.window(data_offset as int, buffer.len()),
        data_offset <= place(scanned_part(signature), content.size as int),
        place(scanned_part(signature), content.size as int) + signature.pattern.len()
            <= data_offset + buffer.len(),
    ensures
        matches_in(
            scanned_part(signature),
            content.size as int,
            data_offset as int,
            buffer,
        ),
{
    let at = place(scanned_part(signature), content.size as int) - data_offset;
    let count = signature.pattern.len();
    assert(content.window(at + data_offset, count) =~= buffer.subrange(at, at + count));
}

/// Only signatures that stand at their place are reported.
proof fn lemma_reported_stands(
    signatures: Seq<SignatureInfo>,
    index: int,
    content: Content,
    header: Seq<u8>,
    header_results: Seq<(u64, String)>,
    footer_offset: u64,
    footer: Seq<u8>,
    footer_results: Seq<(u64, String)>,
)
    requires
        0 <= index < signatures.len(),
        !any_collide(signatures),
        content.size <= u64::MAX,
        header.len() <= content.size,
        header == content.window(0, header.len()),
        footer_offset + footer.len() <= content.size,
        footer == content.window(footer_offset as int, footer.len()),
        results_sound(signatures, content.size as u64, 0, header, header_results),
        results_sound(
            signatures,
            content.size as u64,
            footer_offset,
            footer,
            footer_results,
        ),
        is_reported(signatures[index].label, header_results, footer_results),
    ensures
        stands_in(signatures[index], content),
{
    let one = signatures[index];
    let size = content.size as u64;
    if exists|k: int|
        0 <= k < footer_results.len() && (#[trigger] footer_results[k]).1@ == one.label {
        let k = choose|k: int|
            0 <= k < footer_results.len() && (#[trigger] footer_results[k]).1@ == one.label;
        assert(is_result(signatures, size, footer_offset, footer, footer_results[k]));
        let i = choose|i: int|
            0 <= i < signatures.len() && result_of(
                #[trigger] signatures[i],
                size,
                footer_offset,
                footer,
                footer_results[k],
            );
        assert(i == index) by {
            if i < index {
                assert(collide(signatures[i], signatures[index]));
            } else if index < i {
                assert(collide(signatures[index], signatures[i]));
            }
        }
        lemma_result_stands(one, content, footer_offset, footer);
    } else {
        let k = choose|k: int|
            0 <= k < header_results.len() && (#[trigger] header_results[k]).1@ == one.label
                && !has_place(footer_results, header_results[k].0 as int);
        assert(is_result(signatures, size, 0, header, header_results[k]));
        let i = choose|i: int|
            0 <= i < signatures.len() && result_of(
                #[trigger] signatures[i],
                size,
                0,
                header,
                header_results[k],
            );
        assert(i == index) by {
            if i < index {
                assert(collide(signatures[i], signatures[index]));
            } else if index < i {
                assert(collide(signatures[index], signatures[i]));
            }
        }
        lemma_result_stands(one, content, 0, header);
    }
}

/// In a content that can be read as a whole exactly the signatures that stand at their place are
/// reported.
proof fn lemma_reported(
    signatures: Seq<SignatureInfo>,
    index: int,
    content: Content,
    header: Seq<u8>,
    header_results: Seq<(u64, String)>,
    footer_offset: u64,
    footer: Seq<u8>,
    footer_results: Seq<(u64, String)>,
)
    requires
        0 <= index < signatures.len(),
        are_known_parts(scanned_parts(signatures)),
        !any_collide(signatures),
        content.size <= u64::MAX,
        header.len() <= content.size,
        header == content.window(0, header.len()),
        header.len() == content.size || range_size(scanned_parts(signatures), false)
            <= header.len(),
        footer_offset + footer.len() == content.size,
        footer == content.window(footer_offset as int, footer.len()),
        footer.len() == range_size(scanned_parts(signatures), true),
        results_sound(signatures, content.size as u64, 0, header, header_results),
        results_complete(signatures, content.size as u64, 0, header, header_results),
        results_sound(
            signatures,
            content.size as u64,
            footer_offset,
            footer,
            footer_results,
        ),
        results_complete(
            signatures,
            content.size as u64,
            footer_offset,
            footer,
            footer_results,
        ),
    ensures
        is_reported(signatures[index].label, header_results, footer_results) == stands_in(
            signatures[index],
            content,
        ),
{
    let one = signatures[index];
    let size = content.size as u64;
    let parts = scanned_parts(signatures);
    assert(parts[index] == scanned_part(one));
    lemma_range_size(parts, true);
    lemma_range_size(parts, false);
    if is_reported(one.label, header_results, footer_results) {
        lemma_reported_stands(
            signatures,
            index,
            content,
            header,
            header_results,
            footer_offset,
            footer,
            footer_results,
        );
    }
    if stands_in(one, content) {
        let at = place(scanned_part(one), size as int);
        if one.at_end {
            lemma_stands_in_buffer(one, content, footer_offset, footer);
            assert(is_covered(signatures, signatures[index], size, footer_offset, footer));
            assert(has_result(one, size, footer_offset, footer, footer_results));
        } else {
            lemma_stands_in_buffer(one, content, 0, header);
            assert(is_covered(signatures, signatures[index], size, 0, header));
            assert(has_result(one, size, 0, header, header_results));
            let k = choose|k: int|
                0 <= k < header_results.len() && result_of(
                    one,
                    size,
                    0,
                    header,
                    #[trigger] header_results[k],
                );
            if has_place(footer_results, header_results[k].0 as int) {
                let m = choose|m: int|
                    0 <= m < footer_results.len() && (#[trigger] footer_results[m]).0 == at;
                assert(is_result(signatures, size, footer_offset, footer, footer_results[m]));
                let i = choose|i: int|
                    0 <= i < signatures.len() && result_of(
                        #[trigger] signatures[i],
                        size,
                        footer_offset,
                        footer,
                        footer_results[m],
                    );
                lemma_result_stands(signatures[i], content, footer_offset, footer);
                lemma_stand_together(one, signatures[i], content);
                lemma_stand_together(signatures[i], one, content);
                assert(i == index);
            }
        }
    }
}

/// What is known of a signature that stands in a content smaller than the range at the end: no
/// pattern starts with zero, and where two formats have signatures at the same place, it is the
/// start of the content.
proof fn lemma_small_signature(signature: SignatureInfo)
    requires
        format_signatures(signature.format).contains(signature),
    ensures
        4 <= signature.pattern.len() || signature.offset >= 510,
        signature.at_end ==> {
            &&& signature.offset == 512
            &&& 4 <= signature.pattern.len() <= 8
            &&& signature.pattern[0] != 0
            &&& signature.pattern[1] != 0x4e
            &&& signature.pattern[2] != 0x4e
            &&& signature.pattern[3] != 0x4e
        },
        !signature.at_end && signature.offset <= 520 ==> {
            &&& signature.offset == 0 ==> signature.pattern[0] != 0
            &&& signature.offset > 0 ==> signature.format == format_at(signature.offset)
            &&& 0 < signature.offset < 8 ==> signature.offset == 3 && signature.pattern[0] == 0x4e
        },
{
    let all = format_signatures(signature.format);
    let k = choose|k: int| 0 <= k < all.len() && all[k] == signature;
    assert(all[k] == signature);
}

/// The format that has signatures at an offset close to the start, but not at it.
spec fn format_at(offset: nat) -> FormatIdentifier {
    if offset == 3 {
        FormatIdentifier::Ntfs
    } else if offset == 39 {
        FormatIdentifier::Pdi
    } else if offset == 54 || offset == 82 {
        FormatIdentifier::Fat
    } else if offset == 510 {
        FormatIdentifier::Mbr
    } else {
        FormatIdentifier::Gpt
    }
}

/// A signature at the end ends within the range at the end, which is the largest of their ranges.
proof fn lemma_end_range(signatures: Seq<SignatureInfo>)
    requires
        all_known(signatures),
    ensures
        range_size(scanned_parts(signatures), true) <= 520,
    decreases signatures.len(),
{
    if signatures.len() > 0 {
        let front = signatures.drop_last();
        assert(scanned_parts(signatures).drop_last() =~= scanned_parts(front));
        assert forall|i: int| 0 <= i < front.len() implies format_signatures(
            (#[trigger] front[i]).format,
        ).contains(front[i]) by {
            assert(front[i] == signatures[i]);
        }
        lemma_end_range(front);
        let last = signatures[signatures.len() - 1];
        lemma_small_signature(last);
        assert(scanned_parts(signatures).last() == scanned_part(last));
    }
}

/// In a content smaller than the range at the end, a signature that is bound to the start and
/// stands at its place is reported, or another one of its format is.
proof fn lemma_start_reported(
    signatures: Seq<SignatureInfo>,
    index: int,
    content: Content,
    header: Seq<u8>,
    header_results: Seq<(u64, String)>,
    footer: Seq<u8>,
    footer_results: Seq<(u64, String)>,
) -> (reported: int)
    requires
        0 <= index < signatures.len(),
        all_known(signatures),
        are_known_parts(scanned_parts(signatures)),
        content.size < range_size(scanned_parts(signatures), true),
        !signatures[index].at_end,
        stands_in(signatures[index], content),
        header.len() <= content.size,
        header == content.window(0, header.len()),
        header.len() == content.size || range_size(scanned_parts(signatures), false)
            <= header.len(),
        footer.len() == range_size(scanned_parts(signatures), true),
        forall|k: int|
            0 <= k < footer.len() ==> footer[k] == (if k < footer.len() - content.size {
                0
            } else {
                content.bytes[k - (footer.len() - content.size)]
            }),
        results_complete(signatures, content.size as u64, 0, header, header_results),
        results_sound(signatures, content.size as u64, 0, footer, footer_results),
    ensures
        0 <= reported < signatures.len(),
        signatures[reported].format == signatures[index].format,
        is_reported(signatures[reported].label, header_results, footer_results),
{
    let one = signatures[index];
    let parts = scanned_parts(signatures);
    lemma_end_range(signatures);
    lemma_range_size(parts, false);
    lemma_range_size(parts, true);
    assert(parts[index] == scanned_part(one));
    let size = content.size as u64;
    let at = one.offset;
    lemma_stands_in_buffer(one, content, 0, header);
    assert(is_covered(signatures, signatures[index], size, 0, header));
    assert(has_result(one, size, 0, header, header_results));
    let k = choose|k: int|
        0 <= k < header_results.len() && result_of(
            one,
            size,
            0,
            header,
            #[trigger] header_results[k],
        );
    if has_place(footer_results, header_results[k].0 as int) {
        let m = choose|m: int|
            0 <= m < footer_results.len() && (#[trigger] footer_results[m]).0 == at;
        assert(is_result(signatures, size, 0, footer, footer_results[m]));
        let i = choose|i: int|
            0 <= i < signatures.len() && result_of(
                #[trigger] signatures[i],
                size,
                0,
                footer,
                footer_results[m],
            );
        let other = signatures[i];
        assert(parts[i] == scanned_part(other));
        lemma_small_signature(one);
        lemma_small_signature(other);
        let shift = footer.len() - content.size;
        let found = footer.subrange(at as int, at as int + other.pattern.len());
        assert(found == other.pattern);
        assert(found[0] == footer[at as int]);
        if other.at_end && at == 3 {
            assert(content.window(3, one.pattern.len())[0] == content.bytes[3]);
            if shift <= 3 {
                assert(found[shift as int] == footer[3 + shift]);
                assert(shift == 1 || shift == 2 || shift == 3);
            }
        }
        assert(is_reported(other.label, header_results, footer_results));
        i
    } else {
        index
    }
}

/// The format whose signatures have labels with the given first, second and fourth characters.
spec fn format_of_label(first: char, second: char, fourth: char) -> FormatIdentifier {
    if first == 'a' {
        FormatIdentifier::Apm
    } else if first == 'e' {
        if second == 'w' {
            FormatIdentifier::Ewf
        } else {
            FormatIdentifier::Ext
        }
    } else if first == 'f' {
        FormatIdentifier::Fat
    } else if first == 'g' {
        FormatIdentifier::Gpt
    } else if first == 'h' {
        FormatIdentifier::Hfs
    } else if first == 'm' {
        FormatIdentifier::Mbr
    } else if first == 'n' {
        FormatIdentifier::Ntfs
    } else if first == 'p' {
        FormatIdentifier::Pdi
    } else if first == 'q' {
        FormatIdentifier::Qcow
    } else if first == 's' {
        FormatIdentifier::SparseImage
    } else if first == 'u' {
        FormatIdentifier::Udif
    } else if first == 'v' {
        if second == 'm' {
            FormatIdentifier::Vmdk
        } else if fourth == 'x' {
            FormatIdentifier::Vhdx
        } else {
            FormatIdentifier::Vhd
        }
    } else {
        FormatIdentifier::Xfs
    }
}

/// The format whose signatures have patterns at the given place with the given first byte.
spec fn format_of_pattern(at_end: bool, offset: nat, first: u8) -> FormatIdentifier {
    if at_end {
        if first == 0x6b {
            FormatIdentifier::Udif
        } else {
            FormatIdentifier::Vhd
        }
    } else if offset == 0 {
        if first == 0x45 {
            FormatIdentifier::Ewf
        } else if first == 0x51 {
            FormatIdentifier::Qcow
        } else if first == 0x73 {
            FormatIdentifier::SparseImage
        } else if first == 0x76 {
            FormatIdentifier::Vhdx
        } else if first == 0x58 {
            FormatIdentifier::Xfs
        } else {
            FormatIdentifier::Vmdk
        }
    } else if offset == 3 {
        FormatIdentifier::Ntfs
    } else if offset == 39 {
        FormatIdentifier::Pdi
    } else if offset == 54 || offset == 82 {
        FormatIdentifier::Fat
    } else if offset == 560 {
        FormatIdentifier::Apm
    } else if offset == 1080 {
        FormatIdentifier::Ext
    } else if offset == 1024 && first != 0x45 {
        FormatIdentifier::Hfs
    } else if offset == 512 || offset == 1024 || offset == 2048 || offset == 4096 {
        FormatIdentifier::Gpt
    } else {
        FormatIdentifier::Mbr
    }
}

/// The label of a signature tells its format, and so does its pattern with its place. No pattern at
/// the end starts as one at the start does.
proof fn lemma_signature_format(signature: SignatureInfo)
    requires
        format_signatures(signature.format).contains(signature),
    ensures
        4 <= signature.label.len(),
        format_of_label(signature.label[0], signature.label[1], signature.label[3])
            == signature.format,
        2 <= signature.pattern.len(),
        format_of_pattern(signature.at_end, signature.offset, signature.pattern[0])
            == signature.format,
        signature.at_end <==> signature.pattern[0] == 0x6b || signature.pattern[0] == 0x63,
{
    reveal_strlit("apm1");
    reveal_strlit("ewf1");
    reveal_strlit("ext1");
    reveal_strlit("fat1");
    reveal_strlit("fat2");
    reveal_strlit("fat3");
    reveal_strlit("gpt1");
    reveal_strlit("gpt2");
    reveal_strlit("gpt3");
    reveal_strlit("gpt4");
    reveal_strlit("hfs1");
    reveal_strlit("hfs2");
    reveal_strlit("hfs3");
    reveal_strlit("mbr1");
    reveal_strlit("mbr2");
    reveal_strlit("mbr3");
    reveal_strlit("mbr4");
    reveal_strlit("ntfs1");
    reveal_strlit("pdi1");
    reveal_strlit("qcow1");
    reveal_strlit("qcow2");
    reveal_strlit("qcow3");
    reveal_strlit("sparseimage1");
    reveal_strlit("udif1");
    reveal_strlit("vhd1");
    reveal_strlit("vhdx1");
    reveal_strlit("vmdk1");
    reveal_strlit("vmdk2");
    reveal_strlit("xfs1");
    let all = format_signatures(signature.format);
    let k = choose|k: int| 0 <= k < all.len() && all[k] == signature;
    assert(all[k] == signature);
}

/// The signatures of a format do not collide.
#[verifier::rlimit(40)]
proof fn lemma_format_signatures(format: FormatIdentifier)
    ensures
        !any_collide(format_signatures(format)),
{
    let all = format_signatures(format);
    reveal_strlit("apm1");
    reveal_strlit("ewf1");
    reveal_strlit("ext1");
    reveal_strlit("fat1");
    reveal_strlit("fat2");
    reveal_strlit("fat3");
    reveal_strlit("gpt1");
    reveal_strlit("gpt2");
    reveal_strlit("gpt3");
    reveal_strlit("gpt4");
    reveal_strlit("hfs1");
    reveal_strlit("hfs2");
    reveal_strlit("hfs3");
    reveal_strlit("mbr1");
    reveal_strlit("mbr2");
    reveal_strlit("mbr3");
    reveal_strlit("mbr4");
    reveal_strlit("ntfs1");
    reveal_strlit("pdi1");
    reveal_strlit("qcow1");
    reveal_strlit("qcow2");
    reveal_strlit("qcow3");
    reveal_strlit("sparseimage1");
    reveal_strlit("udif1");
    reveal_strlit("vhd1");
    reveal_strlit("vhdx1");
    reveal_strlit("vmdk1");
    reveal_strlit("vmdk2");
    reveal_strlit("xfs1");
    match format {
        FormatIdentifier::Fat => {
            assert(all[0].pattern[4] != all[1].pattern[4]);
            assert(all[0].label[3] != all[1].label[3]);
            assert(all[0].label[3] != all[2].label[3]);
            assert(all[1].label[3] != all[2].label[3]);
        },
        FormatIdentifier::Gpt => {
            assert(all[0].label[3] != all[1].label[3]);
            assert(all[0].label[3] != all[2].label[3]);
            assert(all[0].label[3] != all[3].label[3]);
            assert(all[1].label[3] != all[2].label[3]);
            assert(all[1].label[3] != all[3].label[3]);
            assert(all[2].label[3] != all[3].label[3]);
        },
        FormatIdentifier::Hfs => {
            assert(all[0].pattern[0] != all[1].pattern[0]);
            assert(all[0].pattern[0] != all[2].pattern[0]);
            assert(all[1].pattern[1] != all[2].pattern[1]);
            assert(all[0].label[3] != all[1].label[3]);
            assert(all[0].label[3] != all[2].label[3]);
            assert(all[1].label[3] != all[2].label[3]);
        },
        FormatIdentifier::Mbr => {
            assert(all[0].label[3] != all[1].label[3]);
            assert(all[0].label[3] != all[2].label[3]);
            assert(all[0].label[3] != all[3].label[3]);
            assert(all[1].label[3] != all[2].label[3]);
            assert(all[1].label[3] != all[3].label[3]);
            assert(all[2].label[3] != all[3].label[3]);
        },
        FormatIdentifier::Qcow => {
            assert(all[0].pattern[7] != all[1].pattern[7]);
            assert(all[0].pattern[7] != all[2].pattern[7]);
            assert(all[1].pattern[7] != all[2].pattern[7]);
            assert(all[0].label[4] != all[1].label[4]);
            assert(all[0].label[4] != all[2].label[4]);
            assert(all[1].label[4] != all[2].label[4]);
        },
        FormatIdentifier::Vmdk => {
            assert(all[0].pattern[0] != all[1].pattern[0]);
            assert(all[0].label[4] != all[1].label[4]);
        },
        _ => {},
    }
    assert forall|i: int, j: int| 0 <= i < j < all.len() implies !collide(
        #[trigger] all[i],
        #[trigger] all[j],
    ) by {}
}

/// The place of a format in the order in which the signatures of all formats are added.
spec fn format_rank(format: FormatIdentifier) -> int {
    match format {
        FormatIdentifier::Apm => 0,
        FormatIdentifier::Ewf => 1,
        FormatIdentifier::Ext => 2,
        FormatIdentifier::Fat => 3,
        FormatIdentifier::Gpt => 4,
        FormatIdentifier::Hfs => 5,
        FormatIdentifier::Mbr => 6,
        FormatIdentifier::Ntfs => 7,
        FormatIdentifier::Pdi => 8,
        FormatIdentifier::Qcow => 9,
        FormatIdentifier::SparseImage => 10,
        FormatIdentifier::Udif => 11,
        FormatIdentifier::Vhd => 12,
        FormatIdentifier::Vhdx => 13,
        FormatIdentifier::Vmdk => 14,
        FormatIdentifier::Xfs => 15,
        FormatIdentifier::SplitRaw => 16,
        FormatIdentifier::Unknown => 17,
    }
}

/// Whether signatures are those of formats before a place in the order.
spec fn ranks_below(signatures: Seq<SignatureInfo>, rank: int) -> bool {
    forall|i: int|
        0 <= i < signatures.len() ==> format_rank((#[trigger] signatures[i]).format) < rank
}

/// Adding the signatures of the next format to signatures that do not collide keeps them so.
proof fn lemma_added_format(signatures: Seq<SignatureInfo>, format: FormatIdentifier)
    requires
        all_known(signatures),
        !any_collide(signatures),
        ranks_below(signatures, format_rank(format)),
    ensures
        all_known(signatures + format_signatures(format)),
        !any_collide(signatures + format_signatures(format)),
        ranks_below(signatures + format_signatures(format), format_rank(format) + 1),
{
    let added = format_signatures(format);
    let all = signatures + added;
    lemma_format_signatures(format);
    assert forall|i: int| 0 <= i < added.len() implies (#[trigger] added[i]).format == format by {}
    assert forall|i: int| 0 <= i < all.len() implies format_signatures(
        (#[trigger] all[i]).format,
    ).contains(all[i]) by {
        if i < signatures.len() {
            assert(all[i] == signatures[i]);
        } else {
            assert(all[i] == added[i - signatures.len()]);
        }
    }
    assert forall|i: int, j: int| 0 <= i < j < all.len() implies !collide(
        #[trigger] all[i],
        #[trigger] all[j],
    ) by {
        if j < signatures.len() {
            assert(!collide(signatures[i], signatures[j]));
        } else if i < signatures.len() {
            let one = signatures[i];
            let other = added[j - signatures.len()];
            assert(all[i] == one && all[j] == other);
            lemma_signature_format(one);
            lemma_signature_format(other);
            assert(one.format != other.format);
            if patterns_agree(one.pattern, other.pattern) {
                assert(one.pattern[0] == other.pattern[0]);
            }
        } else {
            assert(!collide(added[i - signatures.len()], added[j - signatures.len()]));
        }
    }
    assert forall|i: int| 0 <= i < all.len() implies format_rank((#[trigger] all[i]).format)
        < format_rank(format) + 1 by {
        if i < signatures.len() {
            assert(all[i] == signatures[i]);
        } else {
            assert(all[i] == added[i - signatures.len()]);
        }
    }
}

/// The signatures of all formats do not collide, so that a scanner for all of them can be built.
pub proof fn lemma_default_signatures()
    ensures
        !any_collide(default_signatures()),
{
    let signatures0 = Seq::<SignatureInfo>::empty();
    lemma_added_format(signatures0, FormatIdentifier::Apm);
    let signatures1 = signatures0 + format_signatures(FormatIdentifier::Apm);
    lemma_added_format(signatures1, FormatIdentifier::Ewf);
    let signatures2 = signatures1 + format_signatures(FormatIdentifier::Ewf);
    lemma_added_format(signatures2, FormatIdentifier::Ext);
    let signatures3 = signatures2 + format_signatures(FormatIdentifier::Ext);
    lemma_added_format(signatures3, FormatIdentifier::Fat);
    let signatures4 = signatures3 + format_signatures(FormatIdentifier::Fat);
    lemma_added_format(signatures4, FormatIdentifier::Gpt);
    let signatures5 = signatures4 + format_signatures(FormatIdentifier::Gpt);
    lemma_added_format(signatures5, FormatIdentifier::Hfs);
    let signatures6 = signatures5 + format_signatures(FormatIdentifier::Hfs);
    lemma_added_format(signatures6, FormatIdentifier::Mbr);
    let signatures7 = signatures6 + format_signatures(FormatIdentifier::Mbr);
    lemma_added_format(signatures7, FormatIdentifier::Ntfs);
    let signatures8 = signatures7 + format_signatures(FormatIdentifier::Ntfs);
    lemma_added_format(signatures8, FormatIdentifier::Pdi);
    let signatures9 = signatures8 + format_signatures(FormatIdentifier::Pdi);
    lemma_added_format(signatures9, FormatIdentifier::Qcow);
    let signatures10 = signatures9 + format_signatures(FormatIdentifier::Qcow);
    lemma_added_format(signatures10, FormatIdentifier::SparseImage);
    let signatures11 = signatures10 + format_signatures(FormatIdentifier::SparseImage);
    lemma_added_format(signatures11, FormatIdentifier::Udif);
    let signatures12 = signatures11 + format_signatures(FormatIdentifier::Udif);
    lemma_added_format(signatures12, FormatIdentifier::Vhd);
    let signatures13 = signatures12 + format_signatures(FormatIdentifier::Vhd);
    lemma_added_format(signatures13, FormatIdentifier::Vhdx);
    let signatures14 = signatures13 + format_signatures(FormatIdentifier::Vhdx);
    lemma_added_format(signatures14, FormatIdentifier::Vmdk);
    let signatures15 = signatures14 + format_signatures(FormatIdentifier::Vmdk);
    lemma_added_format(signatures15, FormatIdentifier::Xfs);
    let signatures16 = signatures15 + format_signatures(FormatIdentifier::Xfs);
    assert(default_signatures() =~= signatures16);
}

/// Two signatures that stand at the same place of a content collide.
proof fn lemma_stand_together(one: SignatureInfo, other: SignatureInfo, content: Content)
    requires
        stands_in(one, content),
        stands_in(other, content),
        place(scanned_part(one), content.size as int) == place(
            scanned_part(other),
            content.size as int,
        ),
    ensures
        collide(one, other),
{
    let at = place(scanned_part(one), content.size as int);
    assert forall|k: int| 0 <= k < one.pattern.len() && k < other.pattern.len() implies
        one.pattern[k] == other.pattern[k] by {
        assert(content.window(at, one.pattern.len())[k] == content.bytes[at + k]);
        assert(content.window(at, other.pattern.len())[k] == content.bytes[at + k]);
    }
}

/// Format scanner.
pub struct FormatScanner {
    signatures: Vec<FormatSignature>,
    built: BuiltScanner,
}

impl FormatScanner {
    /// The signatures that were added.
    pub closed spec fn view(&self) -> Seq<SignatureInfo> {
        signatures_view(self.signatures@)
    }

    /// The signatures that are scanned for, which are those of the last build.
    pub closed spec fn spec_built(&self) -> Seq<SignatureInfo> {
        self.built@
    }

    #[verifier::type_invariant]
    spec fn well_formed(self) -> bool {
        all_known(signatures_view(self.signatures@))
    }

    /// Creates a new format scanner.
    pub fn new() -> (scanner: Self)
        ensures
            scanner@.len() == 0,
            scanner.spec_built().len() == 0,
    {
        FormatScanner { signatures: Vec::new(), built: BuiltScanner::new() }
    }

    fn add(&mut self, added: FormatSignature)
        requires
            format_signatures(added@.format).contains(added@),
        ensures
            final(self)@ == old(self)@.push(added@),
            final(self).spec_built() == old(self).spec_built(),
    {
        proof {
            use_type_invariant(&*self);
        }
        let mut signatures: Vec<FormatSignature> = Vec::new();
        let ghost before = signatures_view(self.signatures@);
        std::mem::swap(&mut signatures, &mut self.signatures);
        let ghost info = added@;
        signatures.push(added);
        assert(signatures_view(signatures@) =~= before.push(info));
        self.signatures = signatures;
    }

    /// Adds Apple Partition Map signatures.
    pub fn add_apm_signatures(&mut self)
        ensures
            final(self)@ == old(self)@ + format_signatures(FormatIdentifier::Apm),
            final(self).spec_built() == old(self).spec_built(),
    {
        let ghost before = self@;
        let ghost all = format_signatures(FormatIdentifier::Apm);
        let pattern: Vec<u8> = vec![
                0x41, 0x70, 0x70, 0x6c, 0x65, 0x5f, 0x70, 0x61, 0x72, 0x74, 0x69, 0x74,
                0x69, 0x6f, 0x6e, 0x5f, 0x6d, 0x61, 0x70, 0x00, 0x00, 0x00, 0x00, 0x00,
                0x00, 0x00, 0x00, 0x00, 0x00, 0x00, 0x00, 0x00,
            ];
        let added = FormatSignature::new(
            "apm1",
            FormatIdentifier::Apm,
            false,
            560,
            pattern,
        );
        assert(added@.pattern =~= all[0].pattern);
        assert(added@ == all[0]);
        self.add(added);
        assert(self@ =~= before + all);
    }

    /// Adds Expert Witness Compression Format signatures.
    pub fn add_ewf_signatures(&mut self)
        ensures
            final(self)@ == old(self)@ + format_signatures(FormatIdentifier::Ewf),
            final(self).spec_built() == old(self).spec_built(),
    {
        let ghost before = self@;
        let ghost all = format_signatures(FormatIdentifier::Ewf);
        let pattern: Vec<u8> = vec![0x45, 0x56, 0x46, 0x09, 0x0d, 0x0a, 0xff, 0x00];
        let added = FormatSignature::new(
            "ewf1",
            FormatIdentifier::Ewf,
            false,
            0,
            pattern,
        );
        assert(added@.pattern =~= all[0].pattern);
        assert(added@ == all[0]);
        self.add(added);
        assert(self@ =~= before + all);
    }

    /// Adds ext signatures.
    pub fn add_ext_signatures(&mut self)
        ensures
            final(self)@ == old(self)@ + format_signatures(FormatIdentifier::Ext),
            final(self).spec_built() == old(self).spec_built(),
    {
        let ghost before = self@;
        let ghost all = format_signatures(FormatIdentifier::Ext);
        let pattern: Vec<u8> = vec![0x53, 0xef];
        let added = FormatSignature::new(
            "ext1",
            FormatIdentifier::Ext,
            false,
            1080,
            pattern,
        );
        assert(added@.pattern =~= all[0].pattern);
        assert(added@ == all[0]);
        self.add(added);
        assert(self@ =~= before + all);
    }

    /// Adds FAT signatures.
    pub fn add_fat_signatures(&mut self)
        ensures
            final(self)@ == old(self)@ + format_signatures(FormatIdentifier::Fat),
            final(self).spec_built() == old(self).spec_built(),
    {
        let ghost before = self@;
        let ghost all = format_signatures(FormatIdentifier::Fat);
        let pattern: Vec<u8> = vec![0x46, 0x41, 0x54, 0x31, 0x32, 0x20, 0x20, 0x20];
        let added = FormatSignature::new(
            "fat1",
            FormatIdentifier::Fat,
            false,
            54,
            pattern,
        );
        assert(added@.pattern =~= all[0].pattern);
        assert(added@ == all[0]);
        self.add(added);
        let pattern: Vec<u8> = vec![0x46, 0x41, 0x54, 0x31, 0x36, 0x20, 0x20, 0x20];
        let added = FormatSignature::new(
            "fat2",
            FormatIdentifier::Fat,
            false,
            54,
            pattern,
        );
        assert(added@.pattern =~= all[1].pattern);
        assert(added@ == all[1]);
        self.add(added);
        let pattern: Vec<u8> = vec![0x46, 0x41, 0x54, 0x33, 0x32, 0x20, 0x20, 0x20];
        let added = FormatSignature::new(
            "fat3",
            FormatIdentifier::Fat,
            false,
            82,
            pattern,
        );
        assert(added@.pattern =~= all[2].pattern);
        assert(added@ == all[2]);
        self.add(added);
        assert(self@ =~= before + all);
    }

    /// Adds GPT signatures.
    pub fn add_gpt_signatures(&mut self)
        ensures
            final(self)@ == old(self)@ + format_signatures(FormatIdentifier::Gpt),
            final(self).spec_built() == old(self).spec_built(),
    {
        let ghost before = self@;
        let ghost all = format_signatures(FormatIdentifier::Gpt);
        let pattern: Vec<u8> = vec![0x45, 0x46, 0x49, 0x20, 0x50, 0x41, 0x52, 0x54];
        let added = FormatSignature::new(
            "gpt1",
            FormatIdentifier::Gpt,
            false,
            512,
            pattern,
        );
        assert(added@.pattern =~= all[0].pattern);
        assert(added@ == all[0]);
        self.add(added);
        let pattern: Vec<u8> = vec![0x45, 0x46, 0x49, 0x20, 0x50, 0x41, 0x52, 0x54];
        let added = FormatSignature::new(
            "gpt2",
            FormatIdentifier::Gpt,
            false,
            1024,
            pattern,
        );
        assert(added@.pattern =~= all[1].pattern);
        assert(added@ == all[1]);
        self.add(added);
        let pattern: Vec<u8> = vec![0x45, 0x46, 0x49, 0x20, 0x50, 0x41, 0x52, 0x54];
        let added = FormatSignature::new(
            "gpt3",
            FormatIdentifier::Gpt,
            false,
            2048,
            pattern,
        );
        assert(added@.pattern =~= all[2].pattern);
        assert(added@ == all[2]);
        self.add(added);
        let pattern: Vec<u8> = vec![0x45, 0x46, 0x49, 0x20, 0x50, 0x41, 0x52, 0x54];
        let added = FormatSignature::new(
            "gpt4",
            FormatIdentifier::Gpt,
            false,
            4096,
            pattern,
        );
        assert(added@.pattern =~= all[3].pattern);
        assert(added@ == all[3]);
        self.add(added);
        assert(self@ =~= before + all);
    }

    /// Adds HFS signatures.
    pub fn add_hfs_signatures(&mut self)
        ensures
            final(self)@ == old(self)@ + format_signatures(FormatIdentifier::Hfs),
            final(self).spec_built() == old(self).spec_built(),
    {
        let ghost before = self@;
        let ghost all = format_signatures(FormatIdentifier::Hfs);
        let pattern: Vec<u8> = vec![0x42, 0x44];
        let added = FormatSignature::new(
            "hfs1",
            FormatIdentifier::Hfs,
            false,
            1024,
            pattern,
        );
        assert(added@.pattern =~= all[0].pattern);
        assert(added@ == all[0]);
        self.add(added);
        let pattern: Vec<u8> = vec![0x48, 0x2b];
        let added = FormatSignature::new(
            "hfs2",
            FormatIdentifier::Hfs,
            false,
            1024,
            pattern,
        );
        assert(added@.pattern =~= all[1].pattern);
        assert(added@ == all[1]);
        self.add(added);
        let pattern: Vec<u8> = vec![0x48, 0x58];
        let added = FormatSignature::new(
            "hfs3",
            FormatIdentifier::Hfs,
            false,
            1024,
            pattern,
        );
        assert(added@.pattern =~= all[2].pattern);
        assert(added@ == all[2]);
        self.add(added);
        assert(self@ =~= before + all);
    }

    /// Adds MBR signatures.
    pub fn add_mbr_signatures(&mut self)
        ensures
            final(self)@ == old(self)@ + format_signatures(FormatIdentifier::Mbr),
            final(self).spec_built() == old(self).spec_built(),
    {
        let ghost before = self@;
        let ghost all = format_signatures(FormatIdentifier::Mbr);
        let pattern: Vec<u8> = vec![0x55, 0xaa];
        let added = FormatSignature::new(
            "mbr1",
            FormatIdentifier::Mbr,
            false,
            510,
            pattern,
        );
        assert(added@.pattern =~= all[0].pattern);
        assert(added@ == all[0]);
        self.add(added);
        let pattern: Vec<u8> = vec![0x55, 0xaa];
        let added = FormatSignature::new(
            "mbr2",
            FormatIdentifier::Mbr,
            false,
            1022,
            pattern,
        );
        assert(added@.pattern =~= all[1].pattern);
        assert(added@ == all[1]);
        self.add(added);
        let pattern: Vec<u8> = vec![0x55, 0xaa];
        let added = FormatSignature::new(
            "mbr3",
            FormatIdentifier::Mbr,
            false,
            2046,
            pattern,
        );
        assert(added@.pattern =~= all[2].pattern);
        assert(added@ == all[2]);
        self.add(added);
        let pattern: Vec<u8> = vec![0x55, 0xaa];
        let added = FormatSignature::new(
            "mbr4",
            FormatIdentifier::Mbr,
            false,
            4094,
            pattern,
        );
        assert(added@.pattern =~= all[3].pattern);
        assert(added@ == all[3]);
        self.add(added);
        assert(self@ =~= before + all);
    }

    /// Adds NTFS signatures.
    pub fn add_ntfs_signatures(&mut self)
        ensures
            final(self)@ == old(self)@ + format_signatures(FormatIdentifier::Ntfs),
            final(self).spec_built() == old(self).spec_built(),
    {
        let ghost before = self@;
        let ghost all = format_signatures(FormatIdentifier::Ntfs);
        let pattern: Vec<u8> = vec![0x4e, 0x54, 0x46, 0x53, 0x20, 0x20, 0x20, 0x20];
        let added = FormatSignature::new(
            "ntfs1",
            FormatIdentifier::Ntfs,
            false,
            3,
            pattern,
        );
        assert(added@.pattern =~= all[0].pattern);
        assert(added@ == all[0]);
        self.add(added);
        assert(self@ =~= before + all);
    }

    /// Adds XFS signatures.
    pub fn add_xfs_signatures(&mut self)
        ensures
            final(self)@ == old(self)@ + format_signatures(FormatIdentifier::Xfs),
            final(self).spec_built() == old(self).spec_built(),
    {
        let ghost before = self@;
        let ghost all = format_signatures(FormatIdentifier::Xfs);
        let pattern: Vec<u8> = vec![0x58, 0x46, 0x53, 0x42];
        let added = FormatSignature::new(
            "xfs1",
            FormatIdentifier::Xfs,
            false,
            0,
            pattern,
        );
        assert(added@.pattern =~= all[0].pattern);
        assert(added@ == all[0]);
        self.add(added);
        assert(self@ =~= before + all);
    }

    /// Adds PDI signatures.
    pub fn add_pdi_signatures(&mut self)
        ensures
            final(self)@ == old(self)@ + format_signatures(FormatIdentifier::Pdi),
            final(self).spec_built() == old(self).spec_built(),
    {
        let ghost before = self@;
        let ghost all = format_signatures(FormatIdentifier::Pdi);
        let pattern: Vec<u8> = vec![
                0x3c, 0x50, 0x61, 0x72, 0x61, 0x6c, 0x6c, 0x65, 0x6c, 0x73, 0x5f, 0x64,
                0x69, 0x73, 0x6b, 0x5f, 0x69, 0x6d, 0x61, 0x67, 0x65, 0x20,
            ];
        let added = FormatSignature::new(
            "pdi1",
            FormatIdentifier::Pdi,
            false,
            39,
            pattern,
        );
        assert(added@.pattern =~= all[0].pattern);
        assert(added@ == all[0]);
        self.add(added);
        assert(self@ =~= before + all);
    }

    /// Adds QCOW signatures.
    pub fn add_qcow_signatures(&mut self)
        ensures
            final(self)@ == old(self)@ + format_signatures(FormatIdentifier::Qcow),
            final(self).spec_built() == old(self).spec_built(),
    {
        let ghost before = self@;
        let ghost all = format_signatures(FormatIdentifier::Qcow);
        let pattern: Vec<u8> = vec![0x51, 0x46, 0x49, 0xfb, 0x00, 0x00, 0x00, 0x01];
        let added = FormatSignature::new(
            "qcow1",
            FormatIdentifier::Qcow,
            false,
            0,
            pattern,
        );
        assert(added@.pattern =~= all[0].pattern);
        assert(added@ == all[0]);
        self.add(added);
        let pattern: Vec<u8> = vec![0x51, 0x46, 0x49, 0xfb, 0x00, 0x00, 0x00, 0x02];
        let added = FormatSignature::new(
            "qcow2",
            FormatIdentifier::Qcow,
            false,
            0,
            pattern,
        );
        assert(added@.pattern =~= all[1].pattern);
        assert(added@ == all[1]);
        self.add(added);
        let pattern: Vec<u8> = vec![0x51, 0x46, 0x49, 0xfb, 0x00, 0x00, 0x00, 0x03];
        let added = FormatSignature::new(
            "qcow3",
            FormatIdentifier::Qcow,
            false,
            0,
            pattern,
        );
        assert(added@.pattern =~= all[2].pattern);
        assert(added@ == all[2]);
        self.add(added);
        assert(self@ =~= before + all);
    }

    /// Adds sparseimage signatures.
    pub fn add_sparseimage_signatures(&mut self)
        ensures
            final(self)@ == old(self)@ + format_signatures(FormatIdentifier::SparseImage),
            final(self).spec_built() == old(self).spec_built(),
    {
        let ghost before = self@;
        let ghost all = format_signatures(FormatIdentifier::SparseImage);
        let pattern: Vec<u8> = vec![0x73, 0x70, 0x72, 0x73];
        let added = FormatSignature::new(
            "sparseimage1",
            FormatIdentifier::SparseImage,
            false,
            0,
            pattern,
        );
        assert(added@.pattern =~= all[0].pattern);
        assert(added@ == all[0]);
        self.add(added);
        assert(self@ =~= before + all);
    }

    /// Adds UDIF signatures.
    pub fn add_udif_signatures(&mut self)
        ensures
            final(self)@ == old(self)@ + format_signatures(FormatIdentifier::Udif),
            final(self).spec_built() == old(self).spec_built(),
    {
        let ghost before = self@;
        let ghost all = format_signatures(FormatIdentifier::Udif);
        let pattern: Vec<u8> = vec![0x6b, 0x6f, 0x6c, 0x79];
        let added = FormatSignature::new(
            "udif1",
            FormatIdentifier::Udif,
            true,
            512,
            pattern,
        );
        assert(added@.pattern =~= all[0].pattern);
        assert(added@ == all[0]);
        self.add(added);
        assert(self@ =~= before + all);
    }

    /// Adds VHD signatures.
    pub fn add_vhd_signatures(&mut self)
        ensures
            final(self)@ == old(self)@ + format_signatures(FormatIdentifier::Vhd),
            final(self).spec_built() == old(self).spec_built(),
    {
        let ghost before = self@;
        let ghost all = format_signatures(FormatIdentifier::Vhd);
        let pattern: Vec<u8> = vec![0x63, 0x6f, 0x6e, 0x65, 0x63, 0x74, 0x69, 0x78];
        let added = FormatSignature::new(
            "vhd1",
            FormatIdentifier::Vhd,
            true,
            512,
            pattern,
        );
        assert(added@.pattern =~= all[0].pattern);
        assert(added@ == all[0]);
        self.add(added);
        assert(self@ =~= before + all);
    }

    /// Adds VHDX signatures.
    pub fn add_vhdx_signatures(&mut self)
        ensures
            final(self)@ == old(self)@ + format_signatures(FormatIdentifier::Vhdx),
            final(self).spec_built() == old(self).spec_built(),
    {
        let ghost before = self@;
        let ghost all = format_signatures(FormatIdentifier::Vhdx);
        let pattern: Vec<u8> = vec![0x76, 0x68, 0x64, 0x78, 0x66, 0x69, 0x6c, 0x65];
        let added = FormatSignature::new(
            "vhdx1",
            FormatIdentifier::Vhdx,
            false,
            0,
            pattern,
        );
        assert(added@.pattern =~= all[0].pattern);
        assert(added@ == all[0]);
        self.add(added);
        assert(self@ =~= before + all);
    }

    /// Adds VMDK signatures.
    pub fn add_vmdk_signatures(&mut self)
        ensures
            final(self)@ == old(self)@ + format_signatures(FormatIdentifier::Vmdk),
            final(self).spec_built() == old(self).spec_built(),
    {
        let ghost before = self@;
        let ghost all = format_signatures(FormatIdentifier::Vmdk);
        let pattern: Vec<u8> = vec![
                0x23, 0x20, 0x44, 0x69, 0x73, 0x6b, 0x20, 0x44, 0x65, 0x73, 0x63, 0x72,
                0x69, 0x70, 0x74, 0x6f, 0x72, 0x46, 0x69, 0x6c, 0x65,
            ];
        let added = FormatSignature::new(
            "vmdk1",
            FormatIdentifier::Vmdk,
            false,
            0,
            pattern,
        );
        assert(added@.pattern =~= all[0].pattern);
        assert(added@ == all[0]);
        self.add(added);
        let pattern: Vec<u8> = vec![0x4b, 0x44, 0x4d, 0x56];
        let added = FormatSignature::new(
            "vmdk2",
            FormatIdentifier::Vmdk,
            false,
            0,
            pattern,
        );
        assert(added@.pattern =~= all[1].pattern);
        assert(added@ == all[1]);
        self.add(added);
        assert(self@ =~= before + all);
    }

    /// Adds all currently supported signatures.
    #[verifier::rlimit(40)]
    pub fn add_default_signatures(&mut self)
        ensures
            final(self)@ == old(self)@ + default_signatures(),
            final(self).spec_built() == old(self).spec_built(),
    {
        let ghost before = self@;
        self.add_apm_signatures();
        self.add_ewf_signatures();
        self.add_ext_signatures();
        self.add_fat_signatures();
        self.add_gpt_signatures();
        self.add_hfs_signatures();
        self.add_mbr_signatures();
        self.add_ntfs_signatures();
        self.add_pdi_signatures();
        self.add_qcow_signatures();
        self.add_sparseimage_signatures();
        self.add_udif_signatures();
        self.add_vhd_signatures();
        self.add_vhdx_signatures();
        self.add_vmdk_signatures();
        self.add_xfs_signatures();
        assert(self@ =~= before + default_signatures());
    }

    /// Builds the signature scanner.
    pub fn build(&mut self) -> (result: Result<(), DriverError>)
        ensures
            final(self)@ == old(self)@,
            match result {
                Ok(()) => {
                    &&& !any_collide(old(self)@)
                    &&& final(self).spec_built() == old(self)@
                },
                Err(error) => {
                    &&& any_collide(old(self)@)
                    &&& error == DriverError::Invalid
                    &&& final(self).spec_built() == old(self).spec_built()
                },
            },
    {
        proof {
            use_type_invariant(&*self);
        }
        match BuiltScanner::build(&self.signatures) {
            Some(built) => {
                self.built = built;
                Ok(())
            },
            None => Err(DriverError::Invalid),
        }
    }

    /// Scans a data source for format signatures.
    pub fn scan_data_source(&self, data_source: &DataSourceReference) -> (result: Result<
        Vec<FormatIdentifier>,
        DriverError,
    >)
        ensures
            match result {
                Ok(formats) => {
                    &&& formats@.no_duplicates()
                    &&& forall|k: int|
                        0 <= k < formats@.len() ==> is_format_of(
                            self.spec_built(),
                            #[trigger] formats@[k],
                        )
                    &&& range_size(scanned_parts(self.spec_built()), true)
                        <= data_source.content().size ==> formats_stand(
                        self.spec_built(),
                        data_source.content(),
                        formats@,
                    )
                    &&& is_whole(*data_source) ==> has_start_formats(
                        self.spec_built(),
                        data_source.content(),
                        formats@,
                    )
                    &&& is_whole(*data_source) && is_scannable(
                        self.spec_built(),
                        data_source.content(),
                    ) ==> forall|format: FormatIdentifier|
                        #[trigger] formats@.contains(format) <==> has_format(
                            self.spec_built(),
                            data_source.content(),
                            format,
                        )
                },
                Err(error) => !data_source.reliable(),
            },
    {
        self.built.scan_data_source(data_source)
    }
}

impl Default for FormatScanner {
    fn default() -> (scanner: Self)
        ensures
            scanner@.len() == 0,
            scanner.spec_built().len() == 0,
    {
        FormatScanner::new()
    }
}

} // verus!
