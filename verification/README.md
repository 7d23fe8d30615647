# keramics-drivers

Readers for storage media images, volume systems and file systems, verified with
[Verus](https://github.com/verus-lang/verus).

Every reader works on an immutable data source that supports positioned, concurrent reads. What a
source holds is modelled by a size and a map from offsets to bytes. The contract of a reader says
which values and which errors it gives for a given content, and what the data sources that it opens
hold.

Values are promised of every source. That a reader succeeds, and which error it gives, is promised of
sources whose requests never fail and whose reads give at least one byte where there is one. A source
may read less than it is asked for: the readers go on until they have what they need. That a probe
cache gives every byte, and that the format scanner misses no format, is promised of sources that
never read short. A read of an opened medium succeeds where every part that it touches can be read.

## Layout

- `src/source`: data sources: memory, slices, segments, extent maps, probe caches, read statistics,
  cursors.
- `src/resolver`: resolvers of related data sources, and relative paths that stay below their
  directory.
- `src/volume`: MBR, GPT and APM partition tables.
- `src/image`: EWF, PDI, QCOW, sparse bundle, sparse image, split raw, UDIF, VHD, VHDX and VMDK
  images.
- `src/filesystem`: Ext, FAT, HFS, NTFS and XFS file systems.
- `src/bzip2_blocks.rs`, `src/lzfse_blocks.rs`: blocks of compressed data, which are checked before
  the data is decompressed.
- `src/scanner.rs`: detection of formats by their signatures.
- `app`: data sources and resolvers on the local file system.
- `tests`: tests on constructed images.

Checksums, decompression, Base64, identifiers and signature scanning come from the keramics crates.
The functions that call them state what they rely on.
