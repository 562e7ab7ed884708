//! The compressors as a family: no compression, Deflate (LZSS, then
//! Huffman), and the choice by identifier.
use vstd::prelude::*;
use crate::error::AppError;
use crate::huffman::{huffman_decode_spec, HuffmanCompressor};
use crate::huffman_encode::{huffman_output, needs_codes, not_worth_coding, symbol_table};
use crate::huffman_laws::law_huffman_round_trip;
use crate::huffman_tree::huffman_tree;
use crate::header::ReadFailure;
use crate::ids::CompressionId;
use crate::lzss::{lzss_chose, lzss_memory, LzssCompressor};
use crate::lzss_format::MODE_COMPRESSED;
use crate::memory_budget::MemoryBudget;
use crate::lzss_format::lzss_decode_spec;
use crate::rle::{canonical_runs, expand_runs, law_rle_round_trip, rle_decode_spec, RleCompressor};

verus! {

/// Keeps the data as it is.
pub struct NoneCompressor;

impl NoneCompressor {
    pub fn compress(&self, data: &[u8]) -> (r: Result<(Vec<u8>, CompressionId), AppError>)
        ensures
            r matches Ok((out, id)) && out@ == data@ && id == CompressionId::NoCompression,
    {
        Ok((vstd::slice::slice_to_vec(data), CompressionId::NoCompression))
    }

    pub fn decompress(&self, data: &[u8]) -> (r: Result<Vec<u8>, AppError>)
        ensures
            r matches Ok(out) && out@ == data@,
    {
        Ok(vstd::slice::slice_to_vec(data))
    }

    pub fn id(&self) -> (r: CompressionId)
        ensures
            r == CompressionId::NoCompression,
    {
        CompressionId::NoCompression
    }
}

/// What decompressing a Deflate stream gives: the Huffman stage, then the
/// LZSS stage.
pub open spec fn deflate_decode_spec(s: Seq<u8>) -> Option<Seq<u8>> {
    match huffman_decode_spec(s) {
        Ok(mid) => lzss_decode_spec(mid),
        Err(_) => None,
    }
}

/// LZSS followed by Huffman.
pub struct DeflateCompressor;

/// The Huffman stage refuses `data`: its tree would be deeper than 32.
pub open spec fn huffman_refuses(data: Seq<u8>) -> bool {
    needs_codes(data) && huffman_tree(symbol_table(data)).depth() > 32
}

/// `out`, marked `id`, is what the LZSS compressor gives for `data`: an LZSS
/// stream of it, or the data itself marked `NoCompression`, as the coding of
/// the first block decides.
pub open spec fn lzss_result(data: Seq<u8>, out: Seq<u8>, id: CompressionId) -> bool {
    &&& lzss_chose(data, id)
    &&& {
        ||| id == CompressionId::LZSS && lzss_decode_spec(out) == Some(data) && out.len() >= 1 && out[0] == MODE_COMPRESSED
        ||| id == CompressionId::NoCompression && out == data
    }
}

/// `out`, marked `id`, is what the Huffman compressor gives for `data`: the
/// data itself when coding would not shorten it, its Huffman stream otherwise.
pub open spec fn huffman_result(data: Seq<u8>, out: Seq<u8>, id: CompressionId) -> bool {
    if needs_codes(data) && not_worth_coding(data) {
        id == CompressionId::NoCompression && out == data
    } else {
        id == CompressionId::Huffman && huffman_output(data, out)
    }
}

/// The identifier of a Deflate result, from the identifiers of its stages.
pub open spec fn deflate_id(lzss_id: CompressionId, huffman_id: CompressionId) -> CompressionId {
    if lzss_id == CompressionId::LZSS && huffman_id == CompressionId::Huffman {
        CompressionId::Deflate
    } else if lzss_id == CompressionId::NoCompression && huffman_id == CompressionId::Huffman {
        CompressionId::Huffman
    } else if lzss_id == CompressionId::LZSS && huffman_id == CompressionId::NoCompression {
        CompressionId::LZSS
    } else {
        CompressionId::NoCompression
    }
}

/// `out`, marked `id`, is the Huffman stage applied to an output of the LZSS
/// stage for `data`, marked by the two stages' identifiers.
pub open spec fn deflate_result(data: Seq<u8>, out: Seq<u8>, id: CompressionId) -> bool {
    exists|lz: Seq<u8>, lzss_id: CompressionId, huffman_id: CompressionId|
        #![trigger lzss_result(data, lz, lzss_id), huffman_result(lz, out, huffman_id)]
        lzss_result(data, lz, lzss_id) && huffman_result(lz, out, huffman_id) && id == deflate_id(lzss_id, huffman_id)
}

/// The Deflate stages can refuse `data`: some output of the LZSS stage for it
/// is refused by Huffman.
pub open spec fn deflate_refuses(data: Seq<u8>) -> bool {
    exists|lz: Seq<u8>, lzss_id: CompressionId| #[trigger] lzss_result(data, lz, lzss_id) && huffman_refuses(lz)
}

impl DeflateCompressor {
    /// Compresses with LZSS, then compresses that with Huffman. The
    /// identifier says which stages kept their output: `Deflate` (both),
    /// `LZSS` (Huffman passed its input through), `Huffman` (LZSS passed the
    /// data through) or `NoCompression` (neither shrank it); decompressing
    /// with it gives the data back. The LZSS stage's memory is taken from
    /// `budget` and given back.
    pub fn compress(&self, data: &[u8], budget: &mut MemoryBudget) -> (r: Result<(Vec<u8>, CompressionId), AppError>)
        ensures
            r matches Err(e) ==> e is Compression && (old(budget).available < lzss_memory() || deflate_refuses(data@)),
            old(budget).available < lzss_memory() ==> r is Err,
            final(budget).available == old(budget).available,
            r matches Ok((out, id)) ==> deflate_result(data@, out@, id) && decode_with(id, out@) == Some(data@),
    {
        let (lzss_stage, lzss_id) = match LzssCompressor.compress(data, budget) {
            Ok(v) => v,
            Err(e) => {
                return Err(e);
            },
        };
        let (huffman_stage, huffman_id) = match HuffmanCompressor.compress(lzss_stage.as_slice()) {
            Ok(v) => v,
            Err(e) => {
                proof {
                    assert(huffman_refuses(lzss_stage@));
                    assert(lzss_result(data@, lzss_stage@, lzss_id));
                }
                return Err(e);
            },
        };
        proof {
            if huffman_id == CompressionId::Huffman {
                law_huffman_round_trip(lzss_stage@, huffman_stage@);
            }
        }
        proof {
            assert(decode_with(lzss_id, lzss_stage@) == Some(data@));
            assert(lzss_result(data@, lzss_stage@, lzss_id));
            assert(huffman_result(lzss_stage@, huffman_stage@, huffman_id));
        }
        let id = match (lzss_id, huffman_id) {
            (CompressionId::LZSS, CompressionId::Huffman) => CompressionId::Deflate,
            (CompressionId::NoCompression, CompressionId::Huffman) => CompressionId::Huffman,
            (CompressionId::LZSS, CompressionId::NoCompression) => CompressionId::LZSS,
            _ => CompressionId::NoCompression,
        };
        Ok((huffman_stage, id))
    }

    /// Undoes the Huffman stage, then the LZSS stage.
    pub fn decompress(&self, data: &[u8]) -> (r: Result<Vec<u8>, AppError>)
        ensures
            r matches Ok(out) ==> deflate_decode_spec(data@) == Some(out@),
            r is Ok <==> deflate_decode_spec(data@) is Some,
    {
        let huffman_stage = match HuffmanCompressor.decompress(data) {
            Ok(v) => v,
            Err(e) => {
                return Err(e);
            },
        };
        LzssCompressor.decompress(huffman_stage.as_slice())
    }

    pub fn id(&self) -> (r: CompressionId)
        ensures
            r == CompressionId::Deflate,
    {
        CompressionId::Deflate
    }
}

/// What decompressing `s` with the compressor that `id` names gives.
pub open spec fn decode_with(id: CompressionId, s: Seq<u8>) -> Option<Seq<u8>> {
    match id {
        CompressionId::NoCompression => Some(s),
        CompressionId::RLE => rle_decode_spec(s),
        CompressionId::Huffman => match huffman_decode_spec(s) {
            Ok(v) => Some(v),
            Err(_) => None,
        },
        CompressionId::LZSS => lzss_decode_spec(s),
        CompressionId::Deflate => deflate_decode_spec(s),
    }
}

/// The compressor that `id` names can refuse `data`: Huffman or Deflate,
/// when the Huffman tree would be deeper than 32.
pub open spec fn compression_refuses(id: CompressionId, data: Seq<u8>) -> bool {
    (id == CompressionId::Huffman && huffman_refuses(data)) || (id == CompressionId::Deflate && deflate_refuses(data))
}

/// The compressor that `id` names takes memory from the budget: LZSS and
/// Deflate (for the LZSS stage).
pub open spec fn compression_memory(id: CompressionId) -> int {
    if id == CompressionId::LZSS || id == CompressionId::Deflate {
        lzss_memory()
    } else {
        0
    }
}

/// `out`, marked `eid`, is what the compressor that `id` names gives for
/// `data`: each one under its own fallback rule.
pub open spec fn compressed_by(id: CompressionId, data: Seq<u8>, out: Seq<u8>, eid: CompressionId) -> bool {
    match id {
        CompressionId::NoCompression => eid == CompressionId::NoCompression && out == data,
        CompressionId::RLE => eid == CompressionId::RLE && canonical_runs(out) && expand_runs(out) == data,
        CompressionId::Huffman => huffman_result(data, out, eid),
        CompressionId::LZSS => lzss_result(data, out, eid),
        CompressionId::Deflate => deflate_result(data, out, eid),
    }
}

/// Compresses `data` with the compressor that `id` names. The identifier
/// that comes back is the one to decompress with: the one asked, or a weaker
/// stage under that compressor's fallback rule.
pub fn compress_with(id: CompressionId, data: &[u8], budget: &mut MemoryBudget) -> (r: Result<(Vec<u8>, CompressionId), AppError>)
    ensures
        r is Err ==> compression_refuses(id, data@) || (compression_memory(id) > 0 && old(budget).available < compression_memory(id)),
        compression_memory(id) > 0 && old(budget).available < compression_memory(id) ==> r is Err,
        r matches Err(e) ==> e is Compression,
        id == CompressionId::Huffman ==> (r is Err <==> huffman_refuses(data@)),
        id == CompressionId::LZSS ==> (r is Err <==> old(budget).available < lzss_memory()),
        final(budget).available == old(budget).available,
        r matches Ok((out, eid)) ==> compressed_by(id, data@, out@, eid) && decode_with(eid, out@) == Some(data@),
{
    match id {
        CompressionId::NoCompression => NoneCompressor.compress(data),
        CompressionId::RLE => {
            let r = RleCompressor.compress(data);
            proof {
                if r is Ok {
                    law_rle_round_trip(data@, r->Ok_0.0@);
                }
            }
            r
        },
        CompressionId::Huffman => {
            let n = data.len();
            let r = HuffmanCompressor.compress(data);
            proof {
                assert(data@.len() == n);
                if r is Ok && r->Ok_0.1 == CompressionId::Huffman {
                    law_huffman_round_trip(data@, r->Ok_0.0@);
                }
            }
            r
        },
        CompressionId::LZSS => LzssCompressor.compress(data, budget),
        CompressionId::Deflate => DeflateCompressor.compress(data, budget),
    }
}

/// Decompresses `data` with the compressor that `id` names.
pub fn decompress_with(id: CompressionId, data: &[u8]) -> (r: Result<Vec<u8>, AppError>)
    ensures
        r is Ok <==> decode_with(id, data@) is Some,
        r matches Ok(out) ==> decode_with(id, data@) == Some(out@),
{
    match id {
        CompressionId::NoCompression => NoneCompressor.decompress(data),
        CompressionId::RLE => RleCompressor.decompress(data),
        CompressionId::Huffman => HuffmanCompressor.decompress(data),
        CompressionId::LZSS => LzssCompressor.decompress(data),
        CompressionId::Deflate => DeflateCompressor.decompress(data),
    }
}

} // verus!