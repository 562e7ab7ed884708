//! Archive metadata: the entry table and the fixed footer at the end of the
//! archive.
//!
//! An archive is `payloads | file entries | directory entries | footer`.
use vstd::prelude::*;
use vstd::bytes::*;
use vstd::utf8::*;
use crate::bytes_io::{append_slice, lemma_le_round_trips, push_u16_le, push_u32_le, push_u64_le, read_u16_at, read_u32_at, read_u64_at};
use crate::error::{AppError, msg, msg_with_text};
use crate::pipeline_settings::{PipelineSettings, settings_from_descriptor};

verus! {

pub const MAGIC: [u8; 4] = [0x52, 0x41, 0x52, 0x43];
pub const FORMAT_VERSION: u16 = 3;
pub const FOOTER_SIZE: u64 = 32;

/// Where the entry table lies and how many entries of each kind it holds.
#[derive(Debug, Clone, Copy)]
pub struct ArchiveFooter {
    pub table_offset: u64,
    pub table_size: u64,
    pub file_count: u32,
    pub directory_count: u32,
}

/// One archived file.
#[derive(Debug, Clone)]
pub struct ArchivedArtifactEntry {
    pub relative_path: String,
    pub original_size: u64,
    pub stored_size: u64,
    pub payload_offset: u64,
    pub crc32: u32,
    pub pipeline: PipelineSettings,
}

/// One archived empty directory.
#[derive(Debug, Clone)]
pub struct ArchivedDirectoryEntry {
    pub relative_path: String,
}

/// The mathematical content of a file entry.
pub struct EntryModel {
    pub path: Seq<char>,
    pub original_size: u64,
    pub stored_size: u64,
    pub payload_offset: u64,
    pub crc32: u32,
    pub pipeline: PipelineSettings,
}

impl ArchivedArtifactEntry {
    pub open spec fn model(&self) -> EntryModel {
        EntryModel {
            path: self.relative_path@,
            original_size: self.original_size,
            stored_size: self.stored_size,
            payload_offset: self.payload_offset,
            crc32: self.crc32,
            pipeline: self.pipeline,
        }
    }
}

/// Why reading a record failed: the bytes ended, or they do not form a record.
#[derive(Debug, Clone, Copy, PartialEq, Eq, Structural)]
pub enum ReadFailure {
    Truncated,
    Malformed,
}

/// The error that a read failure is reported as.
pub open spec fn reported_as(f: ReadFailure, e: AppError) -> bool {
    match f {
        ReadFailure::Truncated => e is Io,
        ReadFailure::Malformed => e is CorruptArchive,
    }
}

/// A path is stored as its UTF-8 length (u16, little-endian) and its UTF-8 bytes.
pub open spec fn path_field(path: Seq<char>) -> Seq<u8> {
    spec_u16_to_le_bytes(encode_utf8(path).len() as u16) + encode_utf8(path)
}

/// The stored form of a file entry.
pub open spec fn entry_bytes(m: EntryModel) -> Seq<u8> {
    path_field(m.path) + spec_u64_to_le_bytes(m.original_size) + spec_u64_to_le_bytes(m.stored_size)
        + spec_u64_to_le_bytes(m.payload_offset) + spec_u32_to_le_bytes(m.crc32)
        + spec_u16_to_le_bytes(m.pipeline.descriptor())
}

/// Reading a path field at the start of `s`: the path and the bytes it takes.
pub open spec fn parse_path(s: Seq<u8>) -> Result<(Seq<char>, int), ReadFailure> {
    if s.len() < 2 {
        Err(ReadFailure::Truncated)
    } else {
        let len = spec_u16_from_le_bytes(s.subrange(0, 2)) as int;
        if s.len() < 2 + len {
            Err(ReadFailure::Truncated)
        } else if !valid_utf8(s.subrange(2, 2 + len)) {
            Err(ReadFailure::Malformed)
        } else {
            Ok((decode_utf8(s.subrange(2, 2 + len)), 2 + len))
        }
    }
}

/// Reading a file entry at the start of `s`: the entry and the bytes it takes.
pub open spec fn parse_entry(s: Seq<u8>) -> Result<(EntryModel, int), ReadFailure> {
    match parse_path(s) {
        Err(f) => Err(f),
        Ok((path, p)) => {
            if s.len() < p + 30 {
                Err(ReadFailure::Truncated)
            } else {
                match settings_from_descriptor(spec_u16_from_le_bytes(s.subrange(p + 28, p + 30))) {
                    None => Err(ReadFailure::Malformed),
                    Some(pipeline) => Ok((
                        EntryModel {
                            path,
                            original_size: spec_u64_from_le_bytes(s.subrange(p, p + 8)),
                            stored_size: spec_u64_from_le_bytes(s.subrange(p + 8, p + 16)),
                            payload_offset: spec_u64_from_le_bytes(s.subrange(p + 16, p + 24)),
                            crc32: spec_u32_from_le_bytes(s.subrange(p + 24, p + 28)),
                            pipeline,
                        },
                        p + 30,
                    )),
                }
            }
        },
    }
}

/// Wraps `String::from_utf8`: the text whose UTF-8 bytes are `bytes`, when
/// they are valid UTF-8.
#[verifier::external_body]
pub(crate) fn string_from_utf8(bytes: Vec<u8>) -> (r: Option<String>)
    ensures
        r is Some <==> valid_utf8(bytes@),
        r matches Some(s) ==> encode_utf8(s@) == bytes@,
{
    String::from_utf8(bytes).ok()
}

fn path_as_bytes(path: &String) -> (r: &[u8])
    ensures
        r@ == encode_utf8(path@),
{
    path.as_str().as_bytes()
}

fn write_path(out: &mut Vec<u8>, path: &String) -> (r: Result<(), AppError>)
    ensures
        r is Ok <==> encode_utf8(path@).len() <= u16::MAX,
        r is Ok ==> final(out)@ == old(out)@ + path_field(path@),
        r is Err ==> final(out)@ == old(out)@,
        r matches Err(e) ==> e is CorruptArchive,
{
    let bytes = path_as_bytes(path);
    if bytes.len() > 65535 {
        return Err(AppError::CorruptArchive(msg("Путь слишком длинный")));
    }
    let length = bytes.len() as u16;
    push_u16_le(out, length);
    append_slice(out, bytes);
    Ok(())
}

fn read_path(bytes: &[u8], pos: usize) -> (r: Result<(String, usize), AppError>)
    requires
        pos <= bytes@.len(),
    ensures
        parse_path(bytes@.skip(pos as int)) is Ok <==> r is Ok,
        r matches Ok((s, end)) ==> parse_path(bytes@.skip(pos as int)) == Ok::<(Seq<char>, int), ReadFailure>((s@, end - pos)),
        r matches Err(e) ==> (parse_path(bytes@.skip(pos as int)) matches Err(f) && reported_as(f, e)),
{
    let ghost s = bytes@.skip(pos as int);
    proof {
        lemma_le_round_trips();
    }
    if bytes.len() - pos < 2 {
        return Err(AppError::Io(msg("неожиданный конец данных")));
    }
    let length = read_u16_at(bytes, pos) as usize;
    proof {
        assert(bytes@.subrange(pos as int, pos + 2) =~= s.subrange(0, 2));
    }
    if bytes.len() - pos - 2 < length {
        return Err(AppError::Io(msg("неожиданный конец данных")));
    }
    let mut raw: Vec<u8> = Vec::new();
    append_slice(&mut raw, vstd::slice::slice_subrange(bytes, pos + 2, pos + 2 + length));
    proof {
        assert(raw@ =~= s.subrange(2, 2 + length));
    }
    match string_from_utf8(raw) {
        None => Err(AppError::CorruptArchive(msg("Путь записи не является валидным UTF-8"))),
        Some(text) => {
            proof {
                encode_utf8_decode_utf8(text@);
            }
            Ok((text, pos + 2 + length))
        },
    }
}

impl ArchivedArtifactEntry {
    /// Appends the stored form of the entry to `out`.
    pub fn write_to(&self, out: &mut Vec<u8>) -> (r: Result<(), AppError>)
        ensures
            r is Ok <==> encode_utf8(self.relative_path@).len() <= u16::MAX,
            r is Ok ==> final(out)@ == old(out)@ + entry_bytes(self.model()),
            r is Err ==> final(out)@ == old(out)@,
            r matches Err(e) ==> e is CorruptArchive,
    {
        write_path(out, &self.relative_path)?;
        push_u64_le(out, self.original_size);
        push_u64_le(out, self.stored_size);
        push_u64_le(out, self.payload_offset);
        push_u32_le(out, self.crc32);
        push_u16_le(out, self.pipeline.to_descriptor());
        Ok(())
    }

    /// Reads an entry stored at `pos`; returns it and the position after it.
    pub fn read_from(bytes: &[u8], pos: usize) -> (r: Result<(ArchivedArtifactEntry, usize), AppError>)
        requires
            pos <= bytes@.len(),
        ensures
            r is Ok <==> parse_entry(bytes@.skip(pos as int)) is Ok,
            r matches Ok((e, end)) ==> parse_entry(bytes@.skip(pos as int)) == Ok::<(EntryModel, int), ReadFailure>((e.model(), end - pos)),
            r matches Err(e) ==> (parse_entry(bytes@.skip(pos as int)) matches Err(f) && reported_as(f, e)),
    {
        let ghost s = bytes@.skip(pos as int);
        let (relative_path, p) = read_path(bytes, pos)?;
        if bytes.len() - p < 30 {
            return Err(AppError::Io(msg("неожиданный конец данных")));
        }
        let original_size = read_u64_at(bytes, p);
        let stored_size = read_u64_at(bytes, p + 8);
        let payload_offset = read_u64_at(bytes, p + 16);
        let crc32 = read_u32_at(bytes, p + 24);
        let descriptor = read_u16_at(bytes, p + 28);
        let ghost q = p - pos;
        proof {
            assert(bytes@.subrange(p as int, p + 8) =~= s.subrange(q, q + 8));
            assert(bytes@.subrange(p + 8, p + 16) =~= s.subrange(q + 8, q + 16));
            assert(bytes@.subrange(p + 16, p + 24) =~= s.subrange(q + 16, q + 24));
            assert(bytes@.subrange(p + 24, p + 28) =~= s.subrange(q + 24, q + 28));
            assert(bytes@.subrange(p + 28, p + 30) =~= s.subrange(q + 28, q + 30));
        }
        let pipeline = PipelineSettings::from_descriptor(descriptor)?;
        Ok((
            ArchivedArtifactEntry {
                relative_path,
                original_size,
                stored_size,
                payload_offset,
                crc32,
                pipeline,
            },
            p + 30,
        ))
    }

    /// Number of bytes of the stored form.
    pub fn serialized_size(&self) -> (r: u64)
        requires
            encode_utf8(self.relative_path@).len() + 32 <= u64::MAX,
        ensures
            r == 32 + encode_utf8(self.relative_path@).len(),
    {
        let len = path_as_bytes(&self.relative_path).len() as u64;
        2 + len + 8 + 8 + 8 + 4 + 2
    }
}

impl ArchivedDirectoryEntry {
    pub fn new(relative_path: String) -> (r: ArchivedDirectoryEntry)
        ensures
            r.relative_path == relative_path,
    {
        ArchivedDirectoryEntry { relative_path }
    }

    /// Appends the stored form (the path field) to `out`.
    pub fn write_to(&self, out: &mut Vec<u8>) -> (r: Result<(), AppError>)
        ensures
            r is Ok <==> encode_utf8(self.relative_path@).len() <= u16::MAX,
            r is Ok ==> final(out)@ == old(out)@ + path_field(self.relative_path@),
            r is Err ==> final(out)@ == old(out)@,
            r matches Err(e) ==> e is CorruptArchive,
    {
        write_path(out, &self.relative_path)
    }

    /// Reads a directory entry stored at `pos`; returns it and the position after it.
    pub fn read_from(bytes: &[u8], pos: usize) -> (r: Result<(ArchivedDirectoryEntry, usize), AppError>)
        requires
            pos <= bytes@.len(),
        ensures
            r is Ok <==> parse_path(bytes@.skip(pos as int)) is Ok,
            r matches Ok((e, end)) ==> parse_path(bytes@.skip(pos as int)) == Ok::<(Seq<char>, int), ReadFailure>((e.relative_path@, end - pos)),
            r matches Err(e) ==> (parse_path(bytes@.skip(pos as int)) matches Err(f) && reported_as(f, e)),
    {
        let (relative_path, end) = read_path(bytes, pos)?;
        Ok((ArchivedDirectoryEntry { relative_path }, end))
    }

    pub fn serialized_size(&self) -> (r: u64)
        requires
            encode_utf8(self.relative_path@).len() + 2 <= u64::MAX,
        ensures
            r == 2 + encode_utf8(self.relative_path@).len(),
    {
        let len = path_as_bytes(&self.relative_path).len() as u64;
        2 + len
    }
}

/// Reading back the stored form of a file entry gives the entry and consumes
/// exactly its bytes, whatever follows it.
pub proof fn law_entry_round_trip(m: EntryModel, rest: Seq<u8>)
    requires
        encode_utf8(m.path).len() <= u16::MAX,
    ensures
        parse_entry(entry_bytes(m) + rest) == Ok::<(EntryModel, int), ReadFailure>((m, entry_bytes(m).len() as int)),
{
    lemma_le_round_trips();
    encode_utf8_valid_utf8(m.path);
    encode_utf8_decode_utf8(m.path);
    let pb = encode_utf8(m.path);
    let len = pb.len() as u16;
    let s = entry_bytes(m) + rest;
    let p: int = 2 + pb.len() as int;
    assert(s.subrange(0, 2) =~= spec_u16_to_le_bytes(len));
    assert(s.subrange(2, p) =~= pb);
    assert(s.subrange(p, p + 8) =~= spec_u64_to_le_bytes(m.original_size));
    assert(s.subrange(p + 8, p + 16) =~= spec_u64_to_le_bytes(m.stored_size));
    assert(s.subrange(p + 16, p + 24) =~= spec_u64_to_le_bytes(m.payload_offset));
    assert(s.subrange(p + 24, p + 28) =~= spec_u32_to_le_bytes(m.crc32));
    assert(s.subrange(p + 28, p + 30) =~= spec_u16_to_le_bytes(m.pipeline.descriptor()));
    crate::pipeline_settings::lemma_descriptor_round_trip(m.pipeline);
}

/// Reading back a directory path field gives the path.
pub proof fn law_path_round_trip(path: Seq<char>, rest: Seq<u8>)
    requires
        encode_utf8(path).len() <= u16::MAX,
    ensures
        parse_path(path_field(path) + rest) == Ok::<(Seq<char>, int), ReadFailure>((path, path_field(path).len() as int)),
{
    lemma_le_round_trips();
    encode_utf8_valid_utf8(path);
    encode_utf8_decode_utf8(path);
    let pb = encode_utf8(path);
    let s = path_field(path) + rest;
    assert(s.subrange(0, 2) =~= spec_u16_to_le_bytes(pb.len() as u16));
    assert(s.subrange(2, 2 + pb.len() as int) =~= pb);
}

} // verus!
