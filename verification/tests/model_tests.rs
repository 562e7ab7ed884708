use rustarch::error::AppError;
use rustarch::gui_model::{
    AdvancedSettings, ArchiverApp, CompressionAlgorithm, EncryptionAlgorithm, MainWindowEvent, NoiseProtectionAlgorithm,
    SettingsEvent, SourceKind,
};
use rustarch::header::ArchivedArtifactEntry;
use rustarch::ids::{CipherId, CompressionId, FecId};
use rustarch::listing::archive_totals;
use rustarch::memory_budget::{BudgetGuard, MemoryBudget, MEMORY_LIMIT_IN_BYTES};
use rustarch::pipeline::{pack_file, unpack_payload};
use rustarch::pipeline_settings::PipelineSettings;
use rustarch::worker_groups::{group_entries_for_workers, group_files_for_workers};

#[test]
fn algorithm_choices_and_labels() {
    assert_eq!(CompressionAlgorithm::all().len(), 5);
    assert_eq!(CompressionAlgorithm::all()[0], CompressionAlgorithm::NoCompression);
    assert_eq!(CompressionAlgorithm::Zstd.label(), "Zstandard");
    assert_eq!(EncryptionAlgorithm::all()[1].label(), "AES-256");
    assert_eq!(NoiseProtectionAlgorithm::Hamming.label(), "Код Хэмминга");
    assert_eq!(NoiseProtectionAlgorithm::default(), NoiseProtectionAlgorithm::NoProtection);
    assert_eq!(EncryptionAlgorithm::default().label(), "Без шифрования");
}

#[test]
fn window_opens_with_defaults() {
    let app = ArchiverApp::new(Some(8));
    let s = app.settings();
    assert_eq!((s.compression_level, s.block_size_mib, s.max_memory_mib, s.cpu_threads, s.redundancy_percent), (5, 4, 512, 8, 10));
    assert_eq!(app.settings_draft(), s);
    assert!(!app.settings_window_open());
    assert!(!app.can_start());
    assert_eq!(app.source_text(), "— не выбрано —");
    assert_eq!(app.max_available_threads(), 8);
    assert_eq!(ArchiverApp::new(None).settings().cpu_threads, 4);
    assert_eq!(AdvancedSettings::defaults(None).cpu_threads, 4);
}

#[test]
fn choosing_a_source_and_algorithms() {
    let mut app = ArchiverApp::new(Some(2));
    assert!(!app.handle_main_event(MainWindowEvent::StartClicked));
    app.handle_main_event(MainWindowEvent::FilePicked(None));
    assert!(!app.can_start());
    app.handle_main_event(MainWindowEvent::DirectoryPicked(Some("/data/photos".to_string())));
    assert_eq!(app.source_text(), "/data/photos");
    assert_eq!(app.source_kind_word(), "директория");
    app.handle_main_event(MainWindowEvent::FilePicked(Some("/data/a.txt".to_string())));
    assert_eq!(app.source_kind_word(), "файл");
    app.handle_main_event(MainWindowEvent::CompressionChosen(CompressionAlgorithm::Lzma));
    app.handle_main_event(MainWindowEvent::EncryptionChosen(EncryptionAlgorithm::ChaCha20));
    app.handle_main_event(MainWindowEvent::NoiseProtectionChosen(NoiseProtectionAlgorithm::ReedSolomon));
    assert_eq!(app.compression(), CompressionAlgorithm::Lzma);
    assert_eq!(app.encryption(), EncryptionAlgorithm::ChaCha20);
    assert_eq!(app.noise_protection(), NoiseProtectionAlgorithm::ReedSolomon);
    assert!(app.handle_main_event(MainWindowEvent::StartClicked));
}

#[test]
fn settings_window_draft_save_cancel_close() {
    let mut app = ArchiverApp::new(Some(4));
    app.handle_settings_event(SettingsEvent::CompressionLevelSet(9));
    assert_eq!(app.settings_draft().compression_level, 5, "closed window ignores edits");
    app.handle_main_event(MainWindowEvent::SettingsClicked);
    assert!(app.settings_window_open());
    app.handle_settings_event(SettingsEvent::CompressionLevelSet(12));
    app.handle_settings_event(SettingsEvent::CpuThreadsSet(64));
    app.handle_settings_event(SettingsEvent::MaxMemorySet(10));
    assert_eq!(app.settings_draft().compression_level, 9);
    assert_eq!(app.settings_draft().cpu_threads, 4);
    assert_eq!(app.settings_draft().max_memory_mib, 64);
    assert_eq!(app.settings().compression_level, 5);
    app.handle_settings_event(SettingsEvent::SaveClicked);
    assert_eq!(app.settings().compression_level, 9);
    assert!(!app.settings_window_open(), "save closes the window");
    app.handle_main_event(MainWindowEvent::SettingsClicked);
    app.handle_settings_event(SettingsEvent::BlockSizeSet(300));
    assert_eq!(app.settings_draft().block_size_mib, 256);
    app.handle_settings_event(SettingsEvent::CancelClicked);
    assert_eq!(app.settings_draft(), app.settings());
    assert!(!app.settings_window_open(), "cancel closes the window");
    app.handle_main_event(MainWindowEvent::SettingsClicked);
    app.handle_settings_event(SettingsEvent::ResetClicked(Some(3)));
    assert_eq!(app.settings_draft().cpu_threads, 3);
    assert_eq!(app.settings_draft().compression_level, 5);
    app.handle_settings_event(SettingsEvent::RedundancySet(80));
    assert_eq!(app.settings_draft().redundancy_percent, 50);
    app.handle_settings_event(SettingsEvent::Closed);
    assert!(!app.settings_window_open());
    assert_eq!(app.settings_draft(), app.settings());
    assert_eq!(app.settings().compression_level, 9);
}

#[test]
fn files_go_to_the_least_loaded_worker() {
    let groups = group_files_for_workers(&[10, 50, 20, 50, 5], 2);
    assert_eq!(groups, vec![vec![1, 2], vec![3, 0, 4]]);
    let one_each = group_files_for_workers(&[1, 2, 3], 8);
    assert_eq!(one_each, vec![vec![2], vec![1], vec![0]]);
    assert!(group_files_for_workers(&[], 4).is_empty());
    let single = group_files_for_workers(&[4, 4, 4], 1);
    assert_eq!(single, vec![vec![0, 1, 2]]);
}

#[test]
fn entries_are_weighed_by_stored_size() {
    let groups = group_entries_for_workers(&[0, 3, 3], 5);
    assert_eq!(groups, vec![vec![1], vec![2], vec![0]]);
    let groups = group_entries_for_workers(&[0, 0, 0, 2], 2);
    assert_eq!(groups, vec![vec![3, 2], vec![0, 1]]);
    assert!(group_entries_for_workers(&[], 3).is_empty());
}

fn listed(original: u64, stored: u64) -> ArchivedArtifactEntry {
    ArchivedArtifactEntry {
        relative_path: "f".to_string(),
        original_size: original,
        stored_size: stored,
        payload_offset: 0,
        crc32: 0,
        pipeline: PipelineSettings::default(),
    }
}

#[test]
fn listing_totals_saturate() {
    assert_eq!(archive_totals(&[]), (0, 0));
    assert_eq!(archive_totals(&[listed(10, 4), listed(5, 5)]), (15, 9));
    assert_eq!(archive_totals(&[listed(u64::MAX, 1), listed(3, 1)]), (u64::MAX, 2));
}

#[test]
fn memory_budget_moves_bytes_both_ways() {
    let mut budget = MemoryBudget::new();
    assert_eq!(budget.available, MEMORY_LIMIT_IN_BYTES);
    let mut guard = BudgetGuard::default();
    assert!(guard.try_grow(&mut budget, 1024));
    assert_eq!(budget.available, MEMORY_LIMIT_IN_BYTES - 1024);
    assert_eq!(guard.busy_bytes(), 1024);
    assert!(!guard.try_grow(&mut budget, MEMORY_LIMIT_IN_BYTES));
    assert_eq!(guard.busy_bytes(), 1024);
    guard.release(&mut budget, 24);
    assert_eq!(budget.available, MEMORY_LIMIT_IN_BYTES - 1000);
    guard.finish(&mut budget);
    assert_eq!(budget.available, MEMORY_LIMIT_IN_BYTES);
}

fn sample(size: usize) -> Vec<u8> {
    (0..size).map(|index| ((index * 41 + index / 5 + 7) % 256) as u8).collect()
}

#[test]
fn reed_solomon_pack_and_unpack_round_trip() {
    let source = sample(700);
    let settings = PipelineSettings { compression: CompressionId::NoCompression, cipher: CipherId::NoCipher, fec: FecId::ReedSolomon };
    let (entry, payload) = pack_file("payload.bin".to_string(), &source, settings, &[], &mut MemoryBudget::new()).unwrap();
    assert_eq!(entry.original_size, 700);
    assert_eq!(entry.stored_size as usize, payload.len());
    assert_eq!(entry.crc32, u32::MAX);
    let unpacked = unpack_payload(&entry, &payload, &[], "payload.bin").unwrap();
    assert_eq!(unpacked, source);
}

#[test]
fn damaged_reed_solomon_payload_unpacks_to_the_file() {
    let source = sample(700);
    let settings = PipelineSettings { compression: CompressionId::LZSS, cipher: CipherId::Xor, fec: FecId::ReedSolomon };
    let (entry, payload) = pack_file("p.bin".to_string(), &source, settings, b"k", &mut MemoryBudget::new()).unwrap();
    let mut damaged = payload.clone();
    let mut start = 0;
    while start < damaged.len() {
        let end = if start + 255 < damaged.len() { start + 255 } else { damaged.len() };
        for k in 0..16 {
            let position = start + (k * 5) % (end - start);
            damaged[position] ^= 0x5A;
        }
        start = end;
    }
    assert_ne!(damaged, payload);
    assert_eq!(unpack_payload(&entry, &damaged, b"k", "out/p.bin").unwrap(), source);
}

#[test]
fn pipeline_round_trips_and_checksum() {
    let mut text = Vec::new();
    for _ in 0..100 {
        text.extend_from_slice(b"pack me, unpack me; ");
    }
    for compression in [CompressionId::NoCompression, CompressionId::RLE, CompressionId::Huffman, CompressionId::LZSS, CompressionId::Deflate] {
        let settings = PipelineSettings { compression, cipher: CipherId::Xor, fec: FecId::NoFec };
        let (entry, payload) = pack_file("t.txt".to_string(), &text, settings, b"key", &mut MemoryBudget::new()).unwrap();
        assert_eq!(entry.pipeline.cipher, CipherId::Xor);
        assert_eq!(unpack_payload(&entry, &payload, b"key", "out/t.txt").unwrap(), text);
        let mut tampered = entry.clone();
        tampered.crc32 ^= 1;
        assert!(matches!(unpack_payload(&tampered, &payload, b"key", "out/t.txt"), Err(AppError::ChecksumMismatch { .. })));
    }
    let settings = PipelineSettings { compression: CompressionId::RLE, cipher: CipherId::Xor, fec: FecId::NoFec };
    assert!(matches!(pack_file("t".to_string(), &text, settings, &[], &mut MemoryBudget::new()), Err(AppError::Crypto(_))));
}

#[test]
fn incompressible_files_come_back_intact() {
    let mut state: u32 = 12345;
    let noise: Vec<u8> = (0..4000)
        .map(|_| {
            state = state.wrapping_mul(1103515245).wrapping_add(12345);
            (state >> 16) as u8
        })
        .collect();
    for compression in [CompressionId::LZSS, CompressionId::Deflate, CompressionId::Huffman] {
        for fec in [FecId::NoFec, FecId::ReedSolomon] {
            let settings = PipelineSettings { compression, cipher: CipherId::NoCipher, fec };
            let (entry, payload) = pack_file("n.bin".to_string(), &noise, settings, b"", &mut MemoryBudget::new()).unwrap();
            assert_eq!(unpack_payload(&entry, &payload, b"", "out/n.bin").unwrap(), noise);
        }
    }
}
