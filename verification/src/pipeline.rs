//! One file through the pipeline: compress, encrypt and protect when
//! packing; check, decrypt and decompress when unpacking, then compare the
//! checksum.
use vstd::prelude::*;
use crate::compression::{compress_with, compressed_by, compression_memory, compression_refuses, decode_with, decompress_with, huffman_refuses};
use crate::memory_budget::MemoryBudget;
use crate::crc32::{crc32_for_pipeline, pipeline_checksum};
use crate::error::AppError;
use crate::header::ArchivedArtifactEntry;
use crate::ids::{CipherId, CompressionId, FecId};
use crate::pipeline_settings::PipelineSettings;
use crate::rs_stream::{
    all_blocks_clean, bad_length, block_count, block_decoded, data_parts_upto, rs_encoded, within_reach, NoneFec,
    ReedSolomonCode,
};
use crate::xor::{apply_cipher, law_xor_involution, xor_with_key};

verus! {

/// What the cipher `id` makes of `data` under `key`.
pub open spec fn cipher_applied(id: CipherId, data: Seq<u8>, key: Seq<u8>) -> Seq<u8> {
    match id {
        CipherId::NoCipher => data,
        CipherId::Xor => xor_with_key(data, key),
    }
}

/// The cipher `id` works with `key`.
pub open spec fn cipher_accepts(id: CipherId, key: Seq<u8>) -> bool {
    id == CipherId::NoCipher || key.len() > 0
}

/// What the error-correcting code `id` makes of `data`.
pub open spec fn fec_applied(id: FecId, data: Seq<u8>) -> Seq<u8> {
    match id {
        FecId::NoFec => data,
        FecId::ReedSolomon => rs_encoded(data),
    }
}

/// `decoded` is what decoding `payload` with the code `id` can give: the
/// payload itself without a code; with Reed–Solomon, the data parts of the
/// blocks, each corrected into a codeword.
pub open spec fn fec_decoded(id: FecId, payload: Seq<u8>, decoded: Seq<u8>) -> bool {
    match id {
        FecId::NoFec => decoded == payload,
        FecId::ReedSolomon => {
            &&& !bad_length(payload.len())
            &&& decoded.len() == payload.len() - 32 * block_count(payload.len())
            &&& forall|b: nat| b < block_count(payload.len()) ==> #[trigger] block_decoded(payload, decoded, b)
            &&& (all_blocks_clean(payload) ==> decoded == data_parts_upto(payload, block_count(payload.len())))
        },
    }
}

/// `compressed` is what the compression stage can have made of `data`, for
/// the compression `id` asked and the one `effective` recorded.
pub open spec fn compressed_form(id: CompressionId, effective: CompressionId, data: Seq<u8>, compressed: Seq<u8>) -> bool {
    &&& decode_with(effective, compressed) == Some(data)
    &&& compressed_by(id, data, compressed, effective)
    &&& (effective == id || effective == CompressionId::NoCompression || (id == CompressionId::Deflate && (effective
        == CompressionId::LZSS || effective == CompressionId::Huffman)))
}

/// Packs one file whose contents are `data`: compresses it (the compressor
/// may fall back to a weaker stage, which the entry then records), encrypts
/// it with `key`, adds error correction. Gives the entry (its payload offset
/// still 0) and the payload. The compressor's memory is taken from `budget`
/// and given back.
pub fn pack_file(relative_path: String, data: &[u8], settings: PipelineSettings, key: &[u8], budget: &mut MemoryBudget) -> (r: Result<
    (ArchivedArtifactEntry, Vec<u8>),
    AppError,
>)
    ensures
        r is Err ==> compression_refuses(settings.compression, data@) || !cipher_accepts(settings.cipher, key@)
            || (compression_memory(settings.compression) > 0 && old(budget).available < compression_memory(settings.compression)),
        compression_memory(settings.compression) > 0 && old(budget).available < compression_memory(settings.compression) ==> r is Err,
        final(budget).available == old(budget).available,
        settings.compression == CompressionId::Huffman ==> (r is Err <==> huffman_refuses(data@) || !cipher_accepts(
            settings.cipher,
            key@,
        )),
        r matches Err(e) ==> e is Compression || e is Crypto,
        r matches Ok((entry, payload)) ==> {
            &&& entry.relative_path@ == relative_path@
            &&& entry.original_size == data@.len()
            &&& entry.stored_size == payload@.len()
            &&& entry.payload_offset == 0
            &&& entry.crc32 == pipeline_checksum(data@, settings)
            &&& entry.pipeline.cipher == settings.cipher
            &&& entry.pipeline.fec == settings.fec
            &&& cipher_accepts(settings.cipher, key@)
            &&& exists|compressed: Seq<u8>|
                compressed_form(settings.compression, entry.pipeline.compression, data@, compressed) && payload@
                    == fec_applied(settings.fec, cipher_applied(settings.cipher, compressed, key@))
        },
{
    let original_size = data.len() as u64;
    let crc32 = crc32_for_pipeline(data, settings);
    let (compressed, effective) = match compress_with(settings.compression, data, budget) {
        Ok(v) => v,
        Err(e) => {
            return Err(e);
        },
    };
    let ghost c = compressed@;
    let encrypted = match apply_cipher(settings.cipher, compressed, key) {
        Ok(v) => v,
        Err(e) => {
            return Err(e);
        },
    };
    let payload = match settings.fec {
        FecId::NoFec => NoneFec.encode(encrypted.as_slice()),
        FecId::ReedSolomon => ReedSolomonCode.encode(encrypted.as_slice()),
    };
    let entry = ArchivedArtifactEntry {
        relative_path,
        original_size,
        stored_size: payload.len() as u64,
        payload_offset: 0,
        crc32,
        pipeline: PipelineSettings { compression: effective, ..settings },
    };
    proof {
        assert(compressed_form(settings.compression, effective, data@, c));
        assert(payload@ == fec_applied(settings.fec, cipher_applied(settings.cipher, c, key@)));
    }
    Ok((entry, payload))
}

/// What unpacking gives when the payload has no error-correcting code: the
/// data after decryption and decompression, when the stages accept it and
/// its checksum is the one stored.
pub open spec fn unpacked(pipeline: PipelineSettings, crc32: u32, decoded: Seq<u8>, key: Seq<u8>) -> Option<Seq<u8>> {
    if !cipher_accepts(pipeline.cipher, key) {
        None
    } else {
        match decode_with(pipeline.compression, cipher_applied(pipeline.cipher, decoded, key)) {
            Some(out) => if pipeline_checksum(out, pipeline) == crc32 {
                Some(out)
            } else {
                None
            },
            None => None,
        }
    }
}

/// Unpacks the payload of `entry`: removes the error-correcting code,
/// decrypts with `key`, decompresses, and checks the checksum; a mismatch is
/// reported for `output_path`.
pub fn unpack_payload(entry: &ArchivedArtifactEntry, payload: &[u8], key: &[u8], output_path: &str) -> (r: Result<
    Vec<u8>,
    AppError,
>)
    ensures
        entry.pipeline.fec == FecId::NoFec ==> (r is Ok <==> unpacked(entry.pipeline, entry.crc32, payload@, key@) is Some),
        entry.pipeline.fec == FecId::ReedSolomon && !bad_length(payload@.len()) && all_blocks_clean(payload@) ==> (r is Ok
            <==> unpacked(entry.pipeline, entry.crc32, data_parts_upto(payload@, block_count(payload@.len())), key@) is Some),
        r matches Ok(out) ==> exists|decoded: Seq<u8>|
            fec_decoded(entry.pipeline.fec, payload@, decoded) && unpacked(entry.pipeline, entry.crc32, decoded, key@) == Some(
                out@,
            ),
        entry.pipeline.fec == FecId::ReedSolomon ==> forall|sent: Seq<u8>|
            #[trigger] within_reach(rs_encoded(sent), payload@) ==> (r is Ok <==> unpacked(
                entry.pipeline,
                entry.crc32,
                sent,
                key@,
            ) is Some) && (r matches Ok(out) ==> unpacked(entry.pipeline, entry.crc32, sent, key@) == Some(out@)),
{
    let decoded = match entry.pipeline.fec {
        FecId::NoFec => match NoneFec.decode(payload) {
            Ok((d, _report)) => d,
            Err(e) => {
                return Err(e);
            },
        },
        FecId::ReedSolomon => match ReedSolomonCode.decode(payload) {
            Ok((d, _report)) => d,
            Err(e) => {
                return Err(e);
            },
        },
    };
    let ghost d = decoded@;
    let deciphered = match apply_cipher(entry.pipeline.cipher, decoded, key) {
        Ok(v) => v,
        Err(e) => {
            return Err(e);
        },
    };
    let out = match decompress_with(entry.pipeline.compression, deciphered.as_slice()) {
        Ok(v) => v,
        Err(e) => {
            return Err(e);
        },
    };
    let actual = crc32_for_pipeline(out.as_slice(), entry.pipeline);
    if actual != entry.crc32 {
        return Err(AppError::ChecksumMismatch { path: output_path.to_owned() });
    }
    proof {
        assert(fec_decoded(entry.pipeline.fec, payload@, d));
        assert(unpacked(entry.pipeline, entry.crc32, d, key@) == Some(out@));
    }
    Ok(out)
}

/// Unpacking gives back what was packed, with each compression, each
/// cipher and each error-correcting code: for every compressed form that
/// `pack_file` can produce, under the compression its entry records.
pub proof fn law_pack_unpack(settings: PipelineSettings, effective: CompressionId, data: Seq<u8>, compressed: Seq<u8>, key: Seq<u8>, decoded: Seq<u8>)
    requires
        compressed_form(settings.compression, effective, data, compressed),
        cipher_accepts(settings.cipher, key),
        fec_decoded(settings.fec, fec_applied(settings.fec, cipher_applied(settings.cipher, compressed, key)), decoded),
    ensures
        unpacked(
            PipelineSettings { compression: effective, ..settings },
            pipeline_checksum(data, settings),
            decoded,
            key,
        ) == Some(data),
{
    let enc = cipher_applied(settings.cipher, compressed, key);
    if settings.fec == FecId::ReedSolomon {
        crate::rs_stream::law_rs_round_trip(enc);
    }
    assert(decoded == enc);
    if settings.cipher == CipherId::Xor {
        law_xor_involution(compressed, key);
    }
}

} // verus!
