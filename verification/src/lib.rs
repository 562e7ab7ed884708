//! A multi-threaded file archiver's verified core: stream formats,
//! compression, ciphers, error-correcting codes and archive metadata.
use vstd::prelude::*;

pub mod bits;
pub mod bytes_io;
pub mod error;
pub mod ids;
pub mod pipeline_settings;
pub mod hamming;
pub mod hamming_stream;
pub mod crc32;
pub mod xor;
pub mod rle;
pub mod header;
pub mod payload_ranges;
pub mod archive_table;
pub mod huffman_tree;
pub mod huffman_code;
pub mod huffman_stream;
pub mod huffman;
pub mod huffman_encode;
pub mod huffman_laws;
pub mod lz_window;
pub mod lz_history;
pub mod lzss_format;
pub mod lzss;
pub mod lz77;
pub mod compression;
pub mod rs_field;
pub mod gf_laws;
pub mod rs_poly;
pub mod rs_code;
pub mod rs_stream;
pub mod rs_laws;
pub mod rs_distance;
pub mod rs_locate;
pub mod rs_forney;
pub mod cli;
pub mod memory_budget;
pub mod paths;
pub mod gui_model;
pub mod worker_groups;
pub mod listing;
pub mod pipeline;

verus! {

} // verus!
