use rustarch::archive_table::{read_archive_entries, write_archive_header};
use rustarch::crc32::{crc32_for_pipeline, crc32_of, Crc32};
use rustarch::error::AppError;
use rustarch::header::{ArchiveFooter, ArchivedArtifactEntry, ArchivedDirectoryEntry};
use rustarch::ids::{CipherId, CompressionId, FecId};
use rustarch::payload_ranges::{validate_empty_artifact_entry, validate_payload_ranges};
use rustarch::pipeline_settings::PipelineSettings;
use rustarch::xor::{apply_cipher, NoneCipher, XorCipher};

fn entry(path: &str, original: u64, stored: u64, offset: u64, settings: PipelineSettings) -> ArchivedArtifactEntry {
    ArchivedArtifactEntry {
        relative_path: path.to_string(),
        original_size: original,
        stored_size: stored,
        payload_offset: offset,
        crc32: 0xDEAD_BEEF,
        pipeline: settings,
    }
}

fn lzss_xor() -> PipelineSettings {
    PipelineSettings { compression: CompressionId::LZSS, cipher: CipherId::Xor, fec: FecId::ReedSolomon }
}

#[test]
fn ids_round_trip_through_numbers() {
    for id in [
        CompressionId::NoCompression,
        CompressionId::RLE,
        CompressionId::Huffman,
        CompressionId::LZSS,
        CompressionId::Deflate,
    ] {
        assert_eq!(CompressionId::from_u8(id.as_u8()).unwrap(), id);
    }
    assert_eq!(CompressionId::Deflate.as_u8(), 4);
    assert_eq!(CompressionId::LZSS.as_str(), "lzss");
    assert!(matches!(CompressionId::from_u8(5), Err(AppError::CorruptArchive(_))));
    assert_eq!(CipherId::from_u8(1).unwrap(), CipherId::Xor);
    assert!(matches!(CipherId::from_u8(2), Err(AppError::CorruptArchive(_))));
    assert_eq!(FecId::from_u8(1).unwrap(), FecId::ReedSolomon);
    assert_eq!(FecId::ReedSolomon.as_str(), "reed-solomon");
    assert!(matches!(FecId::from_u8(7), Err(AppError::CorruptArchive(_))));
}

#[test]
fn pipeline_descriptor_layout() {
    let settings = lzss_xor();
    assert_eq!(settings.to_descriptor(), 0x0113);
    assert_eq!(PipelineSettings::from_descriptor(0x0113).unwrap(), settings);
    assert_eq!(PipelineSettings::default().to_descriptor(), 0);
    assert!(matches!(PipelineSettings::from_descriptor(0x1000), Err(AppError::CorruptArchive(_))));
    assert!(matches!(PipelineSettings::from_descriptor(0x0009), Err(AppError::CorruptArchive(_))));
}

#[test]
fn crc32_known_values() {
    assert_eq!(crc32_of(b""), 0);
    assert_eq!(crc32_of(b"123456789"), 0xCBF4_3926);
    let mut crc = Crc32::new();
    crc.update(b"1234");
    crc.update(b"56789");
    assert_eq!(crc.finalize(), 0xCBF4_3926);
    let plain = PipelineSettings::default();
    assert_eq!(crc32_for_pipeline(b"123456789", plain), u32::MAX);
    assert_eq!(crc32_for_pipeline(b"123456789", lzss_xor()), 0xCBF4_3926);
}

#[test]
fn xor_cipher_is_its_own_inverse() {
    let data = b"secret payload".to_vec();
    let key = [1u8, 2, 3];
    let once = XorCipher.transform(data.clone(), &key).unwrap();
    assert_eq!(once[0], b's' ^ 1);
    assert_eq!(once[3], b'r' ^ 1);
    assert_ne!(once, data);
    assert_eq!(XorCipher.transform(once, &key).unwrap(), data);
    assert!(matches!(XorCipher.transform(data.clone(), &[]), Err(AppError::Crypto(_))));
    assert_eq!(NoneCipher.transform(data.clone(), &[]).unwrap(), data);
    assert_eq!(apply_cipher(CipherId::NoCipher, data.clone(), &key).unwrap(), data);
}

#[test]
fn entry_round_trip() {
    let e = entry("dir/файл.txt", 10, 20, 30, lzss_xor());
    let mut out = Vec::new();
    e.write_to(&mut out).unwrap();
    assert_eq!(out.len() as u64, e.serialized_size());
    assert_eq!(&out[..2], &(("dir/файл.txt".len()) as u16).to_le_bytes());
    let (back, next) = ArchivedArtifactEntry::read_from(&out, 0).unwrap();
    assert_eq!(next, out.len());
    assert_eq!(back.relative_path, e.relative_path);
    assert_eq!((back.original_size, back.stored_size, back.payload_offset, back.crc32), (10, 20, 30, 0xDEAD_BEEF));
    assert_eq!(back.pipeline, e.pipeline);

    let d = ArchivedDirectoryEntry::new("empty".to_string());
    let mut out = Vec::new();
    d.write_to(&mut out).unwrap();
    assert_eq!(out, vec![5, 0, b'e', b'm', b'p', b't', b'y']);
    let (back, next) = ArchivedDirectoryEntry::read_from(&out, 0).unwrap();
    assert_eq!((back.relative_path.as_str(), next), ("empty", 7));
}

#[test]
fn entry_read_errors() {
    assert!(ArchivedArtifactEntry::read_from(&[3, 0, b'a'], 0).is_err());
    let bad_utf8 = [1u8, 0, 0xFF];
    assert!(matches!(ArchivedDirectoryEntry::read_from(&bad_utf8, 0), Err(AppError::CorruptArchive(_))));
}

#[test]
fn empty_file_entries_must_be_blank() {
    let mut empty = entry("e", 0, 0, 0, PipelineSettings::default());
    empty.crc32 = u32::MAX;
    assert!(validate_empty_artifact_entry(&empty).is_ok());
    let mut with_payload = empty.clone();
    with_payload.stored_size = 1;
    assert!(matches!(validate_empty_artifact_entry(&with_payload), Err(AppError::CorruptArchive(_))));
    let mut with_pipeline = empty.clone();
    with_pipeline.pipeline = lzss_xor();
    assert!(validate_empty_artifact_entry(&with_pipeline).is_err());
    let mut with_crc = empty.clone();
    with_crc.crc32 = 0;
    assert!(validate_empty_artifact_entry(&with_crc).is_err());
    assert!(validate_empty_artifact_entry(&entry("f", 5, 3, 0, lzss_xor())).is_ok());
}

#[test]
fn payloads_must_tile_the_section() {
    let a = entry("a", 5, 10, 0, lzss_xor());
    let b = entry("b", 5, 6, 10, lzss_xor());
    assert!(validate_payload_ranges(&[b.clone(), a.clone()], 16).is_ok());
    assert!(validate_payload_ranges(&[a.clone(), b.clone()], 17).is_err());
    let gap = entry("b", 5, 6, 11, lzss_xor());
    assert!(matches!(validate_payload_ranges(&[a.clone(), gap], 17), Err(AppError::CorruptArchive(_))));
    let overlap = entry("b", 5, 6, 9, lzss_xor());
    assert!(validate_payload_ranges(&[a.clone(), overlap], 15).is_err());
    let beyond = entry("b", 5, 6, 12, lzss_xor());
    assert!(validate_payload_ranges(&[a, beyond], 16).is_err());
    assert!(validate_payload_ranges(&[], 0).is_ok());
    assert!(validate_payload_ranges(&[], 1).is_err());
}

#[test]
fn footer_layout_and_checks() {
    let footer = ArchiveFooter { table_offset: 100, table_size: 20, file_count: 2, directory_count: 1 };
    let mut out = Vec::new();
    footer.write_to(&mut out);
    assert_eq!(out.len(), 32);
    assert_eq!(&out[..4], b"RARC");
    assert_eq!(&out[4..6], &3u16.to_le_bytes());
    let back = ArchiveFooter::read_from(&out, 152).unwrap();
    assert_eq!((back.table_offset, back.table_size, back.file_count, back.directory_count), (100, 20, 2, 1));
    assert!(ArchiveFooter::read_from(&out, 153).is_err());
    assert!(ArchiveFooter::read_from(&out[..0], 10).is_err());
    let mut bad_magic = out.clone();
    bad_magic[0] = b'X';
    assert!(matches!(ArchiveFooter::read_from(&bad_magic, 152), Err(AppError::CorruptArchive(_))));
    let huge = ArchiveFooter { table_offset: u64::MAX, table_size: 1, file_count: 0, directory_count: 0 };
    assert!(huge.table_end().is_err());
}

#[test]
fn archive_tables_round_trip() {
    let files = vec![entry("b.bin", 7, 4, 3, lzss_xor()), entry("a.txt", 9, 3, 0, lzss_xor())];
    let dirs = vec![ArchivedDirectoryEntry::new("empty_dir".to_string())];
    let tail = write_archive_header(&files, &dirs, 7).unwrap();
    let footer_bytes = &tail[tail.len() - 32..];
    let footer = ArchiveFooter::read_from(footer_bytes, 7 + tail.len() as u64).unwrap();
    assert_eq!(footer.table_offset, 7);
    assert_eq!((footer.file_count, footer.directory_count), (2, 1));
    let (back_files, back_dirs) = read_archive_entries(&tail, footer).unwrap();
    assert_eq!(back_files.len(), 2);
    assert_eq!(back_files[0].relative_path, "b.bin");
    assert_eq!(back_files[1].payload_offset, 0);
    assert_eq!(back_dirs[0].relative_path, "empty_dir");
    assert!(write_archive_header(&files, &dirs, 8).is_err());
}

#[test]
fn error_messages_carry_their_details() {
    match CompressionId::from_u8(57) {
        Err(AppError::CorruptArchive(text)) => assert!(text.contains("57"), "{text}"),
        other => panic!("unexpected {:?}", other),
    }
    match rustarch::cli::load_key(Some(rustarch::cli::KeySource::File(b"k.bin".to_vec())), Some(Err("no such file".to_string()))) {
        Err(AppError::CLIUsage(text)) => assert!(text.contains("no such file"), "{text}"),
        other => panic!("unexpected {:?}", other),
    }
    let mut state = Crc32::new();
    state.update(b"123456789");
    assert_eq!(state.into_state(), !0xCBF4_3926u32);
}
