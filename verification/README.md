# rustarch

A multi-threaded file archiver whose core is verified with Verus.

Every file of an archive goes through its own pipeline: compression (RLE,
Huffman, LZSS or Deflate, that is LZSS followed by Huffman), a cipher (XOR
with a repeating key) and an error-correcting code (Reed–Solomon). The
payloads follow one another, then come the entry tables and a fixed footer.

## Layout

- `src/` — the verified library.
  - Stream formats and algorithms: `rle`, `huffman_*`, `lz_window`,
    `lz_history`, `lzss_format`, `lzss`, `lz77`, `compression`, `xor`,
    `crc32`, `hamming`, `hamming_stream`, `rs_field`, `gf_laws`, `rs_poly`,
    `rs_code`, `rs_stream`, `rs_laws`, `rs_distance`, `rs_locate`,
    `rs_forney`.
  - Archive format: `ids`, `pipeline_settings`, `header`, `archive_table`,
    `payload_ranges`, `pipeline`, `paths`, `listing`.
  - Scheduling and state: `worker_groups` (sharing files out to threads),
    `memory_budget`, `gui_model` (the window's state and its answers to
    clicks), `cli` (the command line).
  - `bits`, `bytes_io`, `error`: shared facts and helpers.
- `app/` — the program around the library: reading the command line and the
  file system, running the worker threads, printing listings, and the
  eframe window (`app/gui.rs`, built only where eframe and rfd are
  available).
- `tests/` — tests of the library.

Each compressor's output is proved to decompress to its input (the
compressors state it in their contracts; `law_huffman_round_trip`,
`law_rle_round_trip`), the Hamming code corrects every single error and
detects every double one in a block (`law_single_error_corrected`,
`law_double_error_detected`) and its stream decodes back to the data
(`law_stream_round_trip`). The GF(256) tables are proved to satisfy the
field laws (`gf_laws`), from which every Reed–Solomon block that the encoder
writes is a codeword and the encoded stream decodes back to the data
(`law_rs_round_trip`); Berlekamp–Massey's locator is proved to be a shortest
recurrence that generates the syndromes; the code's distance is proved to be
33, so a block reported corrected after at most 16 damaged bytes is the
block sent (`law_rs_stream_correction_sound`), and the report counts the
blocks that were not codewords. Conversely, a block with at most 16 damaged
bytes is always corrected: the locator is no longer than the damage and
vanishes at every damaged byte (`law_locator_vanishes_at_damage`), the Chien
search lists exactly those bytes (`law_chien_lists_exactly`), and Forney's
formula gives each one's error (`law_forney`); so `ReedSolomonCode::decode`
gives back the data of every stream whose blocks are each within 16 errors
of the blocks sent, and `unpack_payload` unpacks such a damaged payload as
it would the payload written. LZSS keeps the data as it is exactly when a coding of
its first block, with every literal and reference one the compressor may
choose, takes at least four fifths of it. Every file packed through the pipeline
unpacks to its contents, with each compression, cipher and code
(`law_pack_unpack`); data that does not compress is kept as it is and marked
`NoCompression`. The LZ compressors take their window and hash chains from
the memory budget (`memory_budget`), fail with a compression error when it
is short, and give everything back when they finish.
