//! The state of the archiver's window and how it answers the user: which
//! source is chosen, which algorithms are selected, and the settings window
//! with its draft that is saved, cancelled or reset.
//!
//! Drawing the window and running the file dialogs is left to the caller,
//! which hands each click or dialog result over as an event.
use vstd::prelude::*;

verus! {

/// Compression algorithm offered by the window.
#[derive(Debug, Clone, Copy, PartialEq, Eq, Structural)]
pub enum CompressionAlgorithm {
    /// No compression.
    NoCompression,
    Deflate,
    Lzma,
    Zstd,
    Bzip2,
}

impl CompressionAlgorithm {
    /// Every choice, in the order the window lists them.
    pub fn all() -> (r: Vec<CompressionAlgorithm>)
        ensures
            r@ == seq![
                CompressionAlgorithm::NoCompression,
                CompressionAlgorithm::Deflate,
                CompressionAlgorithm::Lzma,
                CompressionAlgorithm::Zstd,
                CompressionAlgorithm::Bzip2,
            ],
    {
        let r = vec![
            CompressionAlgorithm::NoCompression,
            CompressionAlgorithm::Deflate,
            CompressionAlgorithm::Lzma,
            CompressionAlgorithm::Zstd,
            CompressionAlgorithm::Bzip2,
        ];
        assert(r@ =~= seq![
            CompressionAlgorithm::NoCompression,
            CompressionAlgorithm::Deflate,
            CompressionAlgorithm::Lzma,
            CompressionAlgorithm::Zstd,
            CompressionAlgorithm::Bzip2,
        ]);
        r
    }

    pub open spec fn label_text(self) -> Seq<char> {
        match self {
            CompressionAlgorithm::NoCompression => "Без сжатия"@,
            CompressionAlgorithm::Deflate => "Deflate"@,
            CompressionAlgorithm::Lzma => "LZMA"@,
            CompressionAlgorithm::Zstd => "Zstandard"@,
            CompressionAlgorithm::Bzip2 => "BZip2"@,
        }
    }

    /// The caption of the choice.
    pub fn label(&self) -> (r: &'static str)
        ensures
            r@ == self.label_text(),
    {
        match self {
            CompressionAlgorithm::NoCompression => "Без сжатия",
            CompressionAlgorithm::Deflate => "Deflate",
            CompressionAlgorithm::Lzma => "LZMA",
            CompressionAlgorithm::Zstd => "Zstandard",
            CompressionAlgorithm::Bzip2 => "BZip2",
        }
    }
}

impl Default for CompressionAlgorithm {
    fn default() -> (r: CompressionAlgorithm)
        ensures
            r == CompressionAlgorithm::NoCompression,
    {
        CompressionAlgorithm::NoCompression
    }
}

/// Encryption algorithm offered by the window.
#[derive(Debug, Clone, Copy, PartialEq, Eq, Structural)]
pub enum EncryptionAlgorithm {
    /// No encryption.
    NoEncryption,
    Aes256,
    ChaCha20,
    Twofish,
}

impl EncryptionAlgorithm {
    /// Every choice, in the order the window lists them.
    pub fn all() -> (r: Vec<EncryptionAlgorithm>)
        ensures
            r@ == seq![
                EncryptionAlgorithm::NoEncryption,
                EncryptionAlgorithm::Aes256,
                EncryptionAlgorithm::ChaCha20,
                EncryptionAlgorithm::Twofish,
            ],
    {
        let r = vec![
            EncryptionAlgorithm::NoEncryption,
            EncryptionAlgorithm::Aes256,
            EncryptionAlgorithm::ChaCha20,
            EncryptionAlgorithm::Twofish,
        ];
        assert(r@ =~= seq![
            EncryptionAlgorithm::NoEncryption,
            EncryptionAlgorithm::Aes256,
            EncryptionAlgorithm::ChaCha20,
            EncryptionAlgorithm::Twofish,
        ]);
        r
    }

    pub open spec fn label_text(self) -> Seq<char> {
        match self {
            EncryptionAlgorithm::NoEncryption => "Без шифрования"@,
            EncryptionAlgorithm::Aes256 => "AES-256"@,
            EncryptionAlgorithm::ChaCha20 => "ChaCha20"@,
            EncryptionAlgorithm::Twofish => "Twofish"@,
        }
    }

    /// The caption of the choice.
    pub fn label(&self) -> (r: &'static str)
        ensures
            r@ == self.label_text(),
    {
        match self {
            EncryptionAlgorithm::NoEncryption => "Без шифрования",
            EncryptionAlgorithm::Aes256 => "AES-256",
            EncryptionAlgorithm::ChaCha20 => "ChaCha20",
            EncryptionAlgorithm::Twofish => "Twofish",
        }
    }
}

impl Default for EncryptionAlgorithm {
    fn default() -> (r: EncryptionAlgorithm)
        ensures
            r == EncryptionAlgorithm::NoEncryption,
    {
        EncryptionAlgorithm::NoEncryption
    }
}

/// Noise protection (error-correcting coding) offered by the window.
#[derive(Debug, Clone, Copy, PartialEq, Eq, Structural)]
pub enum NoiseProtectionAlgorithm {
    /// No protection.
    NoProtection,
    Crc32,
    Hamming,
    ReedSolomon,
}

impl NoiseProtectionAlgorithm {
    /// Every choice, in the order the window lists them.
    pub fn all() -> (r: Vec<NoiseProtectionAlgorithm>)
        ensures
            r@ == seq![
                NoiseProtectionAlgorithm::NoProtection,
                NoiseProtectionAlgorithm::Crc32,
                NoiseProtectionAlgorithm::Hamming,
                NoiseProtectionAlgorithm::ReedSolomon,
            ],
    {
        let r = vec![
            NoiseProtectionAlgorithm::NoProtection,
            NoiseProtectionAlgorithm::Crc32,
            NoiseProtectionAlgorithm::Hamming,
            NoiseProtectionAlgorithm::ReedSolomon,
        ];
        assert(r@ =~= seq![
            NoiseProtectionAlgorithm::NoProtection,
            NoiseProtectionAlgorithm::Crc32,
            NoiseProtectionAlgorithm::Hamming,
            NoiseProtectionAlgorithm::ReedSolomon,
        ]);
        r
    }

    pub open spec fn label_text(self) -> Seq<char> {
        match self {
            NoiseProtectionAlgorithm::NoProtection => "Без защиты"@,
            NoiseProtectionAlgorithm::Crc32 => "Контрольная сумма (CRC32)"@,
            NoiseProtectionAlgorithm::Hamming => "Код Хэмминга"@,
            NoiseProtectionAlgorithm::ReedSolomon => "Рида — Соломона"@,
        }
    }

    /// The caption of the choice.
    pub fn label(&self) -> (r: &'static str)
        ensures
            r@ == self.label_text(),
    {
        match self {
            NoiseProtectionAlgorithm::NoProtection => "Без защиты",
            NoiseProtectionAlgorithm::Crc32 => "Контрольная сумма (CRC32)",
            NoiseProtectionAlgorithm::Hamming => "Код Хэмминга",
            NoiseProtectionAlgorithm::ReedSolomon => "Рида — Соломона",
        }
    }
}

impl Default for NoiseProtectionAlgorithm {
    fn default() -> (r: NoiseProtectionAlgorithm)
        ensures
            r == NoiseProtectionAlgorithm::NoProtection,
    {
        NoiseProtectionAlgorithm::NoProtection
    }
}

/// What the user picked in the file dialog: a file or a directory.
#[derive(Debug, Clone, Copy, PartialEq, Eq, Structural)]
pub enum SourceKind {
    File,
    Directory,
}

/// Fine settings of the processing, edited in their own window.
#[derive(Debug, Clone, Copy, PartialEq, Eq, Structural)]
pub struct AdvancedSettings {
    /// Compression level, 1 (fast) to 9 (strong).
    pub compression_level: u8,
    /// Processing block size, MiB.
    pub block_size_mib: u32,
    /// Memory the task may take, MiB.
    pub max_memory_mib: u32,
    /// Processor threads used.
    pub cpu_threads: u32,
    /// Redundancy of the error-correcting code, percent.
    pub redundancy_percent: u8,
}

/// The thread count the settings start with: what the machine reports
/// (narrowed to 32 bits as the field holds), 4 when it reports nothing.
pub open spec fn reported_threads(available_threads: Option<usize>) -> u32 {
    match available_threads {
        Some(n) => n as u32,
        None => 4,
    }
}

impl AdvancedSettings {
    /// The default settings on a machine that reports `available_threads`
    /// processor threads (or nothing).
    pub fn defaults(available_threads: Option<usize>) -> (r: AdvancedSettings)
        ensures
            r.compression_level == 5,
            r.block_size_mib == 4,
            r.max_memory_mib == 512,
            r.cpu_threads == reported_threads(available_threads),
            r.redundancy_percent == 10,
    {
        let cpu_threads: u32 = match available_threads {
            Some(n) => n as u32,
            None => 4,
        };
        AdvancedSettings {
            compression_level: 5,
            block_size_mib: 4,
            max_memory_mib: 512,
            cpu_threads,
            redundancy_percent: 10,
        }
    }
}

/// A click or a dialog result in the main window.
pub enum MainWindowEvent {
    /// The file dialog closed, with the file chosen or nothing.
    FilePicked(Option<String>),
    /// The directory dialog closed, with the directory chosen or nothing.
    DirectoryPicked(Option<String>),
    CompressionChosen(CompressionAlgorithm),
    EncryptionChosen(EncryptionAlgorithm),
    NoiseProtectionChosen(NoiseProtectionAlgorithm),
    /// The settings button.
    SettingsClicked,
    /// The start button.
    StartClicked,
}

/// An edit or a click in the settings window.
pub enum SettingsEvent {
    CompressionLevelSet(u8),
    BlockSizeSet(u32),
    RedundancySet(u8),
    MaxMemorySet(u32),
    CpuThreadsSet(u32),
    /// The save button.
    SaveClicked,
    /// The cancel button.
    CancelClicked,
    /// The reset button, on a machine that reports `available_threads`.
    ResetClicked(Option<usize>),
    /// The window's close button.
    Closed,
}

/// `v` brought into `lo..=hi`.
pub open spec fn clamp(v: int, lo: int, hi: int) -> int {
    if v < lo {
        lo
    } else if v > hi {
        hi
    } else {
        v
    }
}

/// The state of the archiver's window.
pub struct ArchiverApp {
    source_path: Option<String>,
    source_kind: SourceKind,
    compression: CompressionAlgorithm,
    encryption: EncryptionAlgorithm,
    noise_protection: NoiseProtectionAlgorithm,
    settings: AdvancedSettings,
    settings_window_open: bool,
    settings_draft: AdvancedSettings,
    max_available_threads: u32,
}

impl ArchiverApp {
    pub closed spec fn spec_source_path(&self) -> Option<Seq<char>> {
        match self.source_path {
            Some(p) => Some(p@),
            None => None,
        }
    }

    pub closed spec fn spec_source_kind(&self) -> SourceKind {
        self.source_kind
    }

    pub closed spec fn spec_compression(&self) -> CompressionAlgorithm {
        self.compression
    }

    pub closed spec fn spec_encryption(&self) -> EncryptionAlgorithm {
        self.encryption
    }

    pub closed spec fn spec_noise_protection(&self) -> NoiseProtectionAlgorithm {
        self.noise_protection
    }

    pub closed spec fn spec_settings(&self) -> AdvancedSettings {
        self.settings
    }

    pub closed spec fn spec_settings_window_open(&self) -> bool {
        self.settings_window_open
    }

    pub closed spec fn spec_settings_draft(&self) -> AdvancedSettings {
        self.settings_draft
    }

    pub closed spec fn spec_max_available_threads(&self) -> u32 {
        self.max_available_threads
    }

    /// Everything but the settings window's state is as in `other`.
    pub open spec fn same_main_state(&self, other: &ArchiverApp) -> bool {
        &&& self.spec_source_path() == other.spec_source_path()
        &&& self.spec_source_kind() == other.spec_source_kind()
        &&& self.spec_compression() == other.spec_compression()
        &&& self.spec_encryption() == other.spec_encryption()
        &&& self.spec_noise_protection() == other.spec_noise_protection()
        &&& self.spec_max_available_threads() == other.spec_max_available_threads()
    }

    /// The window as it opens on a machine that reports `available_threads`
    /// processor threads (or nothing): no source, no algorithm, default
    /// settings, the settings window closed.
    pub fn new(available_threads: Option<usize>) -> (r: ArchiverApp)
        ensures
            r.spec_source_path() is None,
            r.spec_source_kind() == SourceKind::File,
            r.spec_compression() == CompressionAlgorithm::NoCompression,
            r.spec_encryption() == EncryptionAlgorithm::NoEncryption,
            r.spec_noise_protection() == NoiseProtectionAlgorithm::NoProtection,
            r.spec_settings() == r.spec_settings_draft(),
            r.spec_settings().compression_level == 5,
            r.spec_settings().block_size_mib == 4,
            r.spec_settings().max_memory_mib == 512,
            r.spec_settings().cpu_threads == reported_threads(available_threads),
            r.spec_settings().redundancy_percent == 10,
            !r.spec_settings_window_open(),
            r.spec_max_available_threads() == if reported_threads(available_threads) >= 1 {
                reported_threads(available_threads)
            } else {
                1
            },
    {
        let settings = AdvancedSettings::defaults(available_threads);
        let reported: u32 = match available_threads {
            Some(n) => n as u32,
            None => 4,
        };
        let max_available_threads = if reported >= 1 { reported } else { 1 };
        ArchiverApp {
            source_path: None,
            source_kind: SourceKind::File,
            compression: CompressionAlgorithm::NoCompression,
            encryption: EncryptionAlgorithm::NoEncryption,
            noise_protection: NoiseProtectionAlgorithm::NoProtection,
            settings_draft: settings,
            settings,
            settings_window_open: false,
            max_available_threads,
        }
    }

    /// The source can be processed: one has been chosen.
    pub fn can_start(&self) -> (r: bool)
        ensures
            r == self.spec_source_path() is Some,
    {
        self.source_path.is_some()
    }

    /// Answers a click or a dialog result in the main window. A chosen file
    /// or directory becomes the source (a cancelled dialog changes nothing);
    /// a chosen algorithm replaces the one of its group; the settings button
    /// opens the settings window. Gives whether processing is to start: on
    /// the start button, once a source is chosen.
    pub fn handle_main_event(&mut self, event: MainWindowEvent) -> (start: bool)
        ensures
            start == (event is StartClicked && old(self).spec_source_path() is Some),
            match event {
                MainWindowEvent::FilePicked(Some(p)) => final(self).spec_source_path() == Some(p@)
                    && final(self).spec_source_kind() == SourceKind::File,
                MainWindowEvent::DirectoryPicked(Some(p)) => final(self).spec_source_path() == Some(p@)
                    && final(self).spec_source_kind() == SourceKind::Directory,
                _ => final(self).spec_source_path() == old(self).spec_source_path()
                    && final(self).spec_source_kind() == old(self).spec_source_kind(),
            },
            final(self).spec_compression() == match event {
                MainWindowEvent::CompressionChosen(c) => c,
                _ => old(self).spec_compression(),
            },
            final(self).spec_encryption() == match event {
                MainWindowEvent::EncryptionChosen(c) => c,
                _ => old(self).spec_encryption(),
            },
            final(self).spec_noise_protection() == match event {
                MainWindowEvent::NoiseProtectionChosen(c) => c,
                _ => old(self).spec_noise_protection(),
            },
            final(self).spec_settings_window_open() == (event is SettingsClicked || old(self).spec_settings_window_open()),
            final(self).spec_settings() == old(self).spec_settings(),
            final(self).spec_settings_draft() == old(self).spec_settings_draft(),
            final(self).spec_max_available_threads() == old(self).spec_max_available_threads(),
    {
        match event {
            MainWindowEvent::FilePicked(picked) => {
                if let Some(path) = picked {
                    self.source_path = Some(path);
                    self.source_kind = SourceKind::File;
                }
                false
            },
            MainWindowEvent::DirectoryPicked(picked) => {
                if let Some(path) = picked {
                    self.source_path = Some(path);
                    self.source_kind = SourceKind::Directory;
                }
                false
            },
            MainWindowEvent::CompressionChosen(c) => {
                self.compression = c;
                false
            },
            MainWindowEvent::EncryptionChosen(c) => {
                self.encryption = c;
                false
            },
            MainWindowEvent::NoiseProtectionChosen(c) => {
                self.noise_protection = c;
                false
            },
            MainWindowEvent::SettingsClicked => {
                self.settings_window_open = true;
                false
            },
            MainWindowEvent::StartClicked => self.source_path.is_some(),
        }
    }

    /// Answers an edit or a click in the open settings window (nothing
    /// happens while it is closed). A slider edit changes the draft, kept in
    /// the slider's range; save makes the draft the settings, cancel and the
    /// close button put the saved settings back into the draft, reset puts the
    /// defaults into the draft. Save, cancel and the close button close the
    /// window.
    pub fn handle_settings_event(&mut self, event: SettingsEvent)
        ensures
            final(self).same_main_state(old(self)),
            !old(self).spec_settings_window_open() ==> *final(self) == *old(self),
            old(self).spec_settings_window_open() ==> {
                let d = old(self).spec_settings_draft();
                let s = old(self).spec_settings();
                let max_threads = old(self).spec_max_available_threads();
                &&& final(self).spec_settings_window_open() == !(event is Closed || event is SaveClicked
                    || event is CancelClicked)
                &&& final(self).spec_settings() == match event {
                    SettingsEvent::SaveClicked => d,
                    _ => s,
                }
                &&& final(self).spec_settings_draft() == match event {
                    SettingsEvent::CompressionLevelSet(v) => AdvancedSettings {
                        compression_level: clamp(v as int, 1, 9) as u8,
                        ..d
                    },
                    SettingsEvent::BlockSizeSet(v) => AdvancedSettings { block_size_mib: clamp(v as int, 1, 256) as u32, ..d },
                    SettingsEvent::RedundancySet(v) => AdvancedSettings {
                        redundancy_percent: clamp(v as int, 0, 50) as u8,
                        ..d
                    },
                    SettingsEvent::MaxMemorySet(v) => AdvancedSettings {
                        max_memory_mib: clamp(v as int, 64, 16384) as u32,
                        ..d
                    },
                    SettingsEvent::CpuThreadsSet(v) => AdvancedSettings {
                        cpu_threads: clamp(v as int, 1, max_threads as int) as u32,
                        ..d
                    },
                    SettingsEvent::SaveClicked => d,
                    SettingsEvent::CancelClicked => s,
                    SettingsEvent::ResetClicked(available) => AdvancedSettings {
                        compression_level: 5,
                        block_size_mib: 4,
                        max_memory_mib: 512,
                        cpu_threads: reported_threads(available),
                        redundancy_percent: 10,
                    },
                    SettingsEvent::Closed => s,
                }
            },
    {
        if !self.settings_window_open {
            return;
        }
        match event {
            SettingsEvent::CompressionLevelSet(v) => {
                self.settings_draft.compression_level = if v < 1 { 1 } else if v > 9 { 9 } else { v };
            },
            SettingsEvent::BlockSizeSet(v) => {
                self.settings_draft.block_size_mib = if v < 1 { 1 } else if v > 256 { 256 } else { v };
            },
            SettingsEvent::RedundancySet(v) => {
                self.settings_draft.redundancy_percent = if v > 50 { 50 } else { v };
            },
            SettingsEvent::MaxMemorySet(v) => {
                self.settings_draft.max_memory_mib = if v < 64 { 64 } else if v > 16384 { 16384 } else { v };
            },
            SettingsEvent::CpuThreadsSet(v) => {
                let hi = self.max_available_threads;
                self.settings_draft.cpu_threads = if v < 1 { 1 } else if v > hi { hi } else { v };
            },
            SettingsEvent::SaveClicked => {
                self.settings = self.settings_draft;
                self.settings_window_open = false;
            },
            SettingsEvent::CancelClicked => {
                self.settings_draft = self.settings;
                self.settings_window_open = false;
            },
            SettingsEvent::ResetClicked(available) => {
                self.settings_draft = AdvancedSettings::defaults(available);
            },
            SettingsEvent::Closed => {
                self.settings_draft = self.settings;
                self.settings_window_open = false;
            },
        }
    }

    /// The chosen source's path, or the placeholder shown before one is chosen.
    pub fn source_text(&self) -> (r: String)
        ensures
            r@ == match self.spec_source_path() {
                Some(p) => p,
                None => "— не выбрано —"@,
            },
    {
        match &self.source_path {
            Some(p) => p.clone(),
            None => "— не выбрано —".to_owned(),
        }
    }

    /// The word for the kind of source chosen.
    pub fn source_kind_word(&self) -> (r: &'static str)
        ensures
            r@ == if self.spec_source_kind() == SourceKind::File { "файл"@ } else { "директория"@ },
    {
        match self.source_kind {
            SourceKind::File => "файл",
            SourceKind::Directory => "директория",
        }
    }

    pub fn compression(&self) -> (r: CompressionAlgorithm)
        ensures
            r == self.spec_compression(),
    {
        self.compression
    }

    pub fn encryption(&self) -> (r: EncryptionAlgorithm)
        ensures
            r == self.spec_encryption(),
    {
        self.encryption
    }

    pub fn noise_protection(&self) -> (r: NoiseProtectionAlgorithm)
        ensures
            r == self.spec_noise_protection(),
    {
        self.noise_protection
    }

    pub fn settings(&self) -> (r: AdvancedSettings)
        ensures
            r == self.spec_settings(),
    {
        self.settings
    }

    pub fn settings_draft(&self) -> (r: AdvancedSettings)
        ensures
            r == self.spec_settings_draft(),
    {
        self.settings_draft
    }

    pub fn settings_window_open(&self) -> (r: bool)
        ensures
            r == self.spec_settings_window_open(),
    {
        self.settings_window_open
    }

    pub fn max_available_threads(&self) -> (r: u32)
        ensures
            r == self.spec_max_available_threads(),
    {
        self.max_available_threads
    }
}

} // verus!
