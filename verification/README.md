# bounce

A file archiver with a verified core. Members are coded one by one with LZ77 and
per-block Huffman codes, byte-shuffled where that helps, and stored raw where
nothing helps. Archives have the extension `.bnc`.

## Layout

- `src/codec/` is the codec: bits, Huffman codes, matches, blocks, shuffling,
  content-defined chunks, the choice of a method, and streams with their reader.
- `src/archive/` is the container: headers, the index, members, whole archives in
  memory, and the laws that tie writing and reading together.
- `src/crc.rs`, `src/paths.rs`, `src/options.rs`, `src/space.rs` and `src/text.rs`
  are the checksum, paths inside archives, the command line, the room on the disk
  and text.
- `app/` is the command: files, threads, floating point and what is shown.
- `tests/` runs the library.

Every function in `src/` has a contract that Verus proves. Two functions of the
standard library, `String::from_utf8` and `String::from_utf8_lossy`, stand behind
contracts that are believed.

## What is proved

- What a coder writes, its decoder reads back: code lengths, Huffman codes, coded
  blocks, blocked streams, shuffled data, the dedup-friendly container and the
  method that is chosen (`lemma_rle_roundtrip`, `lemma_huff_roundtrip`,
  `lemma_deflate_roundtrip`, `lemma_blocked_roundtrip`, `lemma_shuffle_roundtrip`,
  `lemma_cdc_roundtrip`, `lemma_smart_roundtrip`).
- Streams are read back piece by piece, however the data came in and however its
  blocks were cut (`lemma_stream_roundtrip`, `lemma_shuffled_roundtrip`,
  `lemma_blocked_rest`, `lemma_smart_rest`).
- Chunks keep to their least and greatest length (`lemma_chunks`), and a container
  that is cut short is refused (`lemma_cdc_cut_short`).
- An archive lists, tests and extracts to the files that went in, whatever their
  size, and lists the same without its index (`archive/laws.rs`).
- No file is stored longer than it is, and one that does not shrink is stored as it
  is (`lemma_entry_sizes`).
- Whatever archive is read, what is extracted has the size and the checksum of
  its header and stays under its directory (`lemma_extract_checked`), and an
  archive passes the test if and only if all of it can be extracted
  (`lemma_test_or_extract`).
