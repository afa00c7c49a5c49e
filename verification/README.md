# HyperCompress

A content-aware compressor: input is cut into chunks, each chunk is classified, transformed
(BWT, delta, transpose, run-length, prediction, ...) and entropy-coded (LZ77, rANS, order-1
context model, optimal-parse LZ, xz), and the chunks are written into a `.hc` container with a
segment map. Folders go into `HCAR` archives with solid runs of similar files. Containers can be
sealed with AES-256-GCM under an Argon2 key.

The library in `src/` is written in Verus. Every function carries a contract, and the central
properties are proved, among them:

- each transform reads back what it writes (`lemma_transform_roundtrip`), with three
  conditions: the branch filter only on input free of displacements that decoding misreads
  (`branches_reversible`), precompression only where it copies the data, and the BWT on inputs
  whose length plus its stored index fits in 32 bits; run-length coding reads back every input;
- each entropy coder reads back what it writes (`lemma_codec_roundtrip`, and the per-module
  lemmas it rests on: `lemma_bwt_roundtrip`, `lemma_ans_roundtrip`, `lemma_order1_roundtrip`,
  `lemma_lzo_roundtrip`, `lemma_lz_roundtrip`), with two conditions: `Order1` only where its
  context tables survive being stored (`order1_faithful`), and `Lzma` not where it fell back to
  the data itself on input that is an xz stream of something else;
- a container decompresses back to its input when every chunk's transform and codec meet those
  conditions (`lemma_container_roundtrip`, `proven_choice`, and the contract of `compress`); at
  levels 5 and 6, where each chunk is checked after coding, decompression gives the input back
  or reports a checksum mismatch; the whole-file xz container of levels 7 and up carries no
  such proof;
- an archive lists every file it was built from, in archive order (`lemma_archive_listing`),
  and extracts them when every stored blob reads back (`lemma_archive_roundtrip`, and the
  contract of `build_archive`);
- the optimal-parse coder's parse spells its input, keeps its matches in the window, and costs
  no more than literals alone;
- a sealed container opens back to its plaintext under the same password, and the dictionary
  format reads back what it writes.

Sizes: raw, LZ and xz coding take any input; rANS and order-1 take up to 2^32 - 1 bytes, LZ+rANS
half that, and the optimal parse 2^32 - 2 bytes (`codec_accepts`). The BWT takes up to 2^31 - 1
bytes (`transform_accepts`); chunks it cannot take keep no transform. The container writer takes
inputs of up to `MAX_INPUT` (about 2^50 bytes): a container counts its chunks in 32 bits.

The BWT sorts rotations with a verified merge sort that compares rotations byte by byte; on
highly repetitive input each comparison runs the length of the chunk, so such chunks at the
levels that try the BWT take time quadratic in the chunk size.

Layout:

- `src/bytes.rs`, `src/format.rs`: little-endian helpers, file header and chunk records.
- `src/transform/`: the reversible transforms and their dispatch.
- `src/entropy/`: the coders, codec dispatch and codec selection.
- `src/chunk.rs`, `src/fingerprint.rs`, `src/compress.rs`, `src/decompress.rs`,
  `src/roundtrip.rs`: splitting, classification hooks, container writing and reading.
- `src/archive.rs`: folder archives. `src/crypto.rs`: encryption. `src/dictionary.rs`: pattern
  dictionaries. `src/selection.rs`: extension tests on the paths of a file-manager selection.
- `app/`: the command-line program (argument handling, files, the floating-point content
  statistics that steer the choices, benchmarks).
- `tests/`: tests of the library on concrete inputs.
