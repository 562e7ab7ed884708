//! Writing and reading the entry table and footer that end an archive.
use vstd::prelude::*;
use vstd::bytes::*;
use vstd::utf8::*;
use crate::bytes_io::{append_slice, lemma_le_round_trips, push_u16_le, push_u32_le, push_u64_le, read_u16_at, read_u32_at, read_u64_at};
use crate::error::{AppError, msg};
use crate::header::{
    ArchiveFooter, ArchivedArtifactEntry, ArchivedDirectoryEntry, EntryModel, ReadFailure, entry_bytes,
    law_entry_round_trip, law_path_round_trip, parse_entry, parse_path, path_field, reported_as, FOOTER_SIZE,
    FORMAT_VERSION,
};
use crate::payload_ranges::{models, payloads_tile, validate_payload_ranges};

verus! {

/// The signature "RARC".
pub open spec fn magic_bytes() -> Seq<u8> {
    seq![0x52u8, 0x41u8, 0x52u8, 0x43u8]
}

/// The stored form of a footer.
pub open spec fn footer_bytes(f: ArchiveFooter) -> Seq<u8> {
    magic_bytes() + spec_u16_to_le_bytes(3) + spec_u16_to_le_bytes(0) + spec_u64_to_le_bytes(
        f.table_offset,
    ) + spec_u64_to_le_bytes(f.table_size) + spec_u32_to_le_bytes(f.file_count) + spec_u32_to_le_bytes(
        f.directory_count,
    )
}

/// Reading the 32 footer bytes `b` of an archive of `archive_size` bytes.
pub open spec fn parse_footer(b: Seq<u8>, archive_size: u64) -> Option<ArchiveFooter> {
    if archive_size < 32 {
        None
    } else if b.subrange(0, 4) != magic_bytes() {
        None
    } else if spec_u16_from_le_bytes(b.subrange(4, 6)) != 3 {
        None
    } else if spec_u16_from_le_bytes(b.subrange(6, 8)) != 0 {
        None
    } else {
        let f = ArchiveFooter {
            table_offset: spec_u64_from_le_bytes(b.subrange(8, 16)),
            table_size: spec_u64_from_le_bytes(b.subrange(16, 24)),
            file_count: spec_u32_from_le_bytes(b.subrange(24, 28)),
            directory_count: spec_u32_from_le_bytes(b.subrange(28, 32)),
        };
        if f.table_offset + f.table_size > u64::MAX {
            None
        } else if f.table_offset + f.table_size != archive_size - 32 {
            None
        } else {
            Some(f)
        }
    }
}

impl ArchiveFooter {
    pub fn write_to(self, out: &mut Vec<u8>)
        ensures
            final(out)@ == old(out)@ + footer_bytes(self),
    {
        let ghost start = out@;
        out.push(0x52);
        out.push(0x41);
        out.push(0x52);
        out.push(0x43);
        proof {
            assert(out@ =~= start + magic_bytes());
        }
        push_u16_le(out, FORMAT_VERSION);
        push_u16_le(out, 0);
        push_u64_le(out, self.table_offset);
        push_u64_le(out, self.table_size);
        push_u32_le(out, self.file_count);
        push_u32_le(out, self.directory_count);
    }

    /// End of the entry table.
    pub fn table_end(self) -> (r: Result<u64, AppError>)
        ensures
            r is Ok <==> self.table_offset + self.table_size <= u64::MAX,
            r matches Ok(e) ==> e == self.table_offset + self.table_size,
            r matches Err(e) ==> e is CorruptArchive,
    {
        match self.table_offset.checked_add(self.table_size) {
            Some(e) => Ok(e),
            None => Err(AppError::CorruptArchive(msg("Переполнение размера таблиц"))),
        }
    }

    /// Reads the footer from the last 32 bytes `footer` of an archive of
    /// `archive_size` bytes.
    pub fn read_from(footer: &[u8], archive_size: u64) -> (r: Result<ArchiveFooter, AppError>)
        requires
            archive_size >= 32 ==> footer@.len() == 32,
        ensures
            r is Ok <==> parse_footer(footer@, archive_size) is Some,
            r matches Ok(f) ==> parse_footer(footer@, archive_size) == Some(f),
            r matches Err(e) ==> e is CorruptArchive,
    {
        if archive_size < FOOTER_SIZE {
            return Err(AppError::CorruptArchive(msg("Архив слишком короткий для footer")));
        }
        if !(footer[0] == 0x52 && footer[1] == 0x41 && footer[2] == 0x52 && footer[3] == 0x43) {
            proof {
                assert(footer@.subrange(0, 4) != magic_bytes() ) by {
                    if footer@.subrange(0, 4) == magic_bytes() {
                        assert(footer@.subrange(0, 4)[0] == footer@[0]);
                        assert(footer@.subrange(0, 4)[1] == footer@[1]);
                        assert(footer@.subrange(0, 4)[2] == footer@[2]);
                        assert(footer@.subrange(0, 4)[3] == footer@[3]);
                    }
                }
            }
            return Err(AppError::CorruptArchive(msg("Неверная сигнатура footer архива")));
        }
        proof {
            assert(footer@.subrange(0, 4) =~= magic_bytes());
        }
        let version = read_u16_at(footer, 4);
        if version != FORMAT_VERSION {
            return Err(AppError::CorruptArchive(msg("Неподдерживаемая версия формата")));
        }
        let flags = read_u16_at(footer, 6);
        if flags != 0 {
            return Err(AppError::CorruptArchive(msg("Неизвестные флаги архива")));
        }
        let f = ArchiveFooter {
            table_offset: read_u64_at(footer, 8),
            table_size: read_u64_at(footer, 16),
            file_count: read_u32_at(footer, 24),
            directory_count: read_u32_at(footer, 28),
        };
        let end = f.table_end()?;
        if end != archive_size - FOOTER_SIZE {
            return Err(AppError::CorruptArchive(msg("Некорректные границы таблиц архива")));
        }
        Ok(f)
    }
}

/// Reading a footer that was written for an archive of the right size gives it back.
pub proof fn law_footer_round_trip(f: ArchiveFooter, archive_size: u64)
    requires
        archive_size >= 32,
        f.table_offset + f.table_size == archive_size - 32,
    ensures
        parse_footer(footer_bytes(f), archive_size) == Some(f),
{
    lemma_le_round_trips();
    let b = footer_bytes(f);
    assert(b.subrange(0, 4) =~= magic_bytes());
    assert(b.subrange(4, 6) =~= spec_u16_to_le_bytes(3));
    assert(b.subrange(6, 8) =~= spec_u16_to_le_bytes(0));
    assert(b.subrange(8, 16) =~= spec_u64_to_le_bytes(f.table_offset));
    assert(b.subrange(16, 24) =~= spec_u64_to_le_bytes(f.table_size));
    assert(b.subrange(24, 28) =~= spec_u32_to_le_bytes(f.file_count));
    assert(b.subrange(28, 32) =~= spec_u32_to_le_bytes(f.directory_count));
}

// ------------------------------------------------------------------
// The entry table.
// ------------------------------------------------------------------

/// Reads `count` file entries from the start of `s`; an entry may not end
/// after `limit`. Gives the entries and the position after the last one.
pub open spec fn parse_files(s: Seq<u8>, count: nat, limit: int) -> Result<(Seq<EntryModel>, int), ReadFailure>
    decreases count,
{
    if count == 0 {
        Ok((seq![], 0))
    } else {
        match parse_files(s, (count - 1) as nat, limit) {
            Err(f) => Err(f),
            Ok((ms, pos)) => match parse_entry(s.skip(pos)) {
                Err(f) => Err(f),
                Ok((m, used)) => if pos + used > limit {
                    Err(ReadFailure::Malformed)
                } else {
                    Ok((ms.push(m), pos + used))
                },
            },
        }
    }
}

/// Reads `count` directory entries from position `start` of `s`.
pub open spec fn parse_dirs(s: Seq<u8>, start: int, count: nat, limit: int) -> Result<(Seq<Seq<char>>, int), ReadFailure>
    decreases count,
{
    if count == 0 {
        Ok((seq![], start))
    } else {
        match parse_dirs(s, start, (count - 1) as nat, limit) {
            Err(f) => Err(f),
            Ok((ds, pos)) => match parse_path(s.skip(pos)) {
                Err(f) => Err(f),
                Ok((d, used)) => if pos + used > limit {
                    Err(ReadFailure::Malformed)
                } else {
                    Ok((ds.push(d), pos + used))
                },
            },
        }
    }
}

/// Reading the table at the start of `s` (the archive from the table on).
pub open spec fn parse_table(s: Seq<u8>, f: ArchiveFooter) -> Result<(Seq<EntryModel>, Seq<Seq<char>>), ReadFailure> {
    match parse_files(s, f.file_count as nat, f.table_size as int) {
        Err(e) => Err(e),
        Ok((fs, p)) => match parse_dirs(s, p, f.directory_count as nat, f.table_size as int) {
            Err(e) => Err(e),
            Ok((ds, q)) => if q != f.table_size {
                Err(ReadFailure::Malformed)
            } else {
                Ok((fs, ds))
            },
        },
    }
}

proof fn lemma_files_error_stays(s: Seq<u8>, a: nat, n: nat, limit: int)
    requires
        a <= n,
        parse_files(s, a, limit) is Err,
    ensures
        parse_files(s, n, limit) == parse_files(s, a, limit),
    decreases n - a,
{
    if n > a {
        lemma_files_error_stays(s, a, (n - 1) as nat, limit);
    }
}

proof fn lemma_dirs_error_stays(s: Seq<u8>, start: int, a: nat, n: nat, limit: int)
    requires
        a <= n,
        parse_dirs(s, start, a, limit) is Err,
    ensures
        parse_dirs(s, start, n, limit) == parse_dirs(s, start, a, limit),
    decreases n - a,
{
    if n > a {
        lemma_dirs_error_stays(s, start, a, (n - 1) as nat, limit);
    }
}

pub open spec fn dir_paths(dirs: Seq<ArchivedDirectoryEntry>) -> Seq<Seq<char>> {
    dirs.map_values(|d: ArchivedDirectoryEntry| d.relative_path@)
}

/// Reads the file and directory entries. `tail` is the archive from
/// `footer.table_offset` to its end.
pub fn read_archive_entries(tail: &[u8], footer: ArchiveFooter) -> (r: Result<(Vec<ArchivedArtifactEntry>, Vec<ArchivedDirectoryEntry>), AppError>)
    ensures
        r is Ok <==> (parse_table(tail@, footer) matches Ok((fs, ds)) && payloads_tile(fs, footer.table_offset)),
        r matches Ok((files, dirs)) ==> parse_table(tail@, footer) == Ok::<(Seq<EntryModel>, Seq<Seq<char>>), ReadFailure>((models(files@), dir_paths(dirs@))),
        r matches Err(e) ==> (match parse_table(tail@, footer) {
            Err(f) => reported_as(f, e),
            Ok(_) => e is CorruptArchive,
        }),
{
    let ghost s = tail@;
    let limit = footer.table_size;
    let mut files: Vec<ArchivedArtifactEntry> = Vec::new();
    let mut pos: usize = 0;
    let mut i: u32 = 0;
    proof {
        assert(models(files@) =~= seq![]);
    }
    while i < footer.file_count
        invariant
            i <= footer.file_count,
            limit == footer.table_size,
            s == tail@,
            pos <= tail@.len(),
            parse_files(s, i as nat, limit as int) == Ok::<(Seq<EntryModel>, int), ReadFailure>((models(files@), pos as int)),
        decreases footer.file_count - i,
    {
        let (entry, end) = match ArchivedArtifactEntry::read_from(tail, pos) {
            Ok(x) => x,
            Err(e) => {
                proof {
                    lemma_files_error_stays(s, (i + 1) as nat, footer.file_count as nat, limit as int);
                }
                return Err(e);
            },
        };
        if end as u64 > limit {
            proof {
                lemma_files_error_stays(s, (i + 1) as nat, footer.file_count as nat, limit as int);
            }
            return Err(AppError::CorruptArchive(msg("Запись выходит за пределы своей таблицы")));
        }
        let ghost old_models = models(files@);
        let ghost m = entry.model();
        files.push(entry);
        proof {
            assert(models(files@) =~= old_models.push(m));
            assert(parse_files(s, (i + 1) as nat, limit as int) == Ok::<(Seq<EntryModel>, int), ReadFailure>((old_models.push(m), end as int)));
        }
        pos = end;
        i += 1;
    }
    let mut dirs: Vec<ArchivedDirectoryEntry> = Vec::new();
    let ghost p0 = pos as int;
    let mut j: u32 = 0;
    proof {
        assert(dir_paths(dirs@) =~= seq![]);
    }
    while j < footer.directory_count
        invariant
            j <= footer.directory_count,
            limit == footer.table_size,
            s == tail@,
            pos <= tail@.len(),
            parse_files(s, footer.file_count as nat, limit as int) == Ok::<(Seq<EntryModel>, int), ReadFailure>((models(files@), p0)),
            parse_dirs(s, p0, j as nat, limit as int) == Ok::<(Seq<Seq<char>>, int), ReadFailure>((dir_paths(dirs@), pos as int)),
        decreases footer.directory_count - j,
    {
        let (dir, end) = match ArchivedDirectoryEntry::read_from(tail, pos) {
            Ok(x) => x,
            Err(e) => {
                proof {
                    lemma_dirs_error_stays(s, p0, (j + 1) as nat, footer.directory_count as nat, limit as int);
                }
                return Err(e);
            },
        };
        if end as u64 > limit {
            proof {
                lemma_dirs_error_stays(s, p0, (j + 1) as nat, footer.directory_count as nat, limit as int);
            }
            return Err(AppError::CorruptArchive(msg("Запись выходит за пределы своей таблицы")));
        }
        let ghost old_paths = dir_paths(dirs@);
        let ghost d = dir.relative_path@;
        dirs.push(dir);
        proof {
            assert(dir_paths(dirs@) =~= old_paths.push(d));
            assert(parse_dirs(s, p0, (j + 1) as nat, limit as int) == Ok::<(Seq<Seq<char>>, int), ReadFailure>((old_paths.push(d), end as int)));
        }
        pos = end;
        j += 1;
    }
    if pos as u64 != limit {
        return Err(AppError::CorruptArchive(msg("Размер таблиц не совпадает с количеством записей!")));
    }
    validate_payload_ranges(files.as_slice(), footer.table_offset)?;
    Ok((files, dirs))
}


/// The stored form of the file entries, one after the other.
pub open spec fn files_bytes(ms: Seq<EntryModel>) -> Seq<u8>
    decreases ms.len(),
{
    if ms.len() == 0 {
        seq![]
    } else {
        files_bytes(ms.drop_last()) + entry_bytes(ms.last())
    }
}

/// The stored form of the directory entries, one after the other.
pub open spec fn dirs_bytes(ds: Seq<Seq<char>>) -> Seq<u8>
    decreases ds.len(),
{
    if ds.len() == 0 {
        seq![]
    } else {
        dirs_bytes(ds.drop_last()) + path_field(ds.last())
    }
}

/// Every path fits the 16-bit length field.
pub open spec fn paths_fit(ms: Seq<EntryModel>, ds: Seq<Seq<char>>) -> bool {
    &&& forall|i: int| 0 <= i < ms.len() ==> #[trigger] encode_utf8(ms[i].path).len() <= u16::MAX
    &&& forall|i: int| 0 <= i < ds.len() ==> #[trigger] encode_utf8(ds[i]).len() <= u16::MAX
}

/// The footer written for these entries when the table starts at `table_offset`.
pub open spec fn footer_for(ms: Seq<EntryModel>, ds: Seq<Seq<char>>, table_offset: u64) -> ArchiveFooter {
    ArchiveFooter {
        table_offset,
        table_size: (files_bytes(ms) + dirs_bytes(ds)).len() as u64,
        file_count: ms.len() as u32,
        directory_count: ds.len() as u32,
    }
}

/// Builds what ends the archive: the file entries, the directory entries and
/// the footer. `table_offset` is the size of the payload section.
pub fn write_archive_header(
    archived_files: &[ArchivedArtifactEntry],
    archived_directories: &[ArchivedDirectoryEntry],
    table_offset: u64,
) -> (r: Result<Vec<u8>, AppError>)
    ensures
        r is Ok <==> {
            &&& payloads_tile(models(archived_files@), table_offset)
            &&& paths_fit(models(archived_files@), dir_paths(archived_directories@))
            &&& archived_files@.len() <= u32::MAX
            &&& archived_directories@.len() <= u32::MAX
            &&& table_offset + (files_bytes(models(archived_files@)) + dirs_bytes(dir_paths(archived_directories@))).len() + 32 <= u64::MAX
        },
        r matches Ok(out) ==> out@ == files_bytes(models(archived_files@)) + dirs_bytes(dir_paths(archived_directories@))
            + footer_bytes(footer_for(models(archived_files@), dir_paths(archived_directories@), table_offset)),
        r matches Err(e) ==> e is CorruptArchive,
{
    let ghost ms = models(archived_files@);
    let ghost ds = dir_paths(archived_directories@);
    validate_payload_ranges(archived_files, table_offset)?;
    let mut out: Vec<u8> = Vec::new();
    let mut i: usize = 0;
    proof {
        assert(ms.take(0) =~= seq![]);
    }
    while i < archived_files.len()
        invariant
            i <= archived_files.len(),
            ms == models(archived_files@),
            out@ == files_bytes(ms.take(i as int)),
            forall|j: int| 0 <= j < i ==> #[trigger] encode_utf8(ms[j].path).len() <= u16::MAX,
        decreases archived_files.len() - i,
    {
        let entry = &archived_files[i];
        proof {
            assert(ms[i as int] == entry.model());
        }
        if entry.write_to(&mut out).is_err() {
            proof {
                assert(!(encode_utf8(ms[i as int].path).len() <= u16::MAX));
            }
            return Err(AppError::CorruptArchive(msg("Путь слишком длинный")));
        }
        proof {
            assert(ms.take((i + 1) as int).drop_last() =~= ms.take(i as int));
        }
        i += 1;
    }
    proof {
        assert(ms.take(archived_files.len() as int) =~= ms);
    }
    let ghost after_files = out@;
    let mut k: usize = 0;
    proof {
        assert(ds.take(0) =~= seq![]);
        assert(out@ =~= after_files + dirs_bytes(ds.take(0)));
    }
    while k < archived_directories.len()
        invariant
            k <= archived_directories.len(),
            ds == dir_paths(archived_directories@),
            out@ == after_files + dirs_bytes(ds.take(k as int)),
            forall|j: int| 0 <= j < k ==> #[trigger] encode_utf8(ds[j]).len() <= u16::MAX,
        decreases archived_directories.len() - k,
    {
        let dir = &archived_directories[k];
        proof {
            assert(ds[k as int] == dir.relative_path@);
        }
        if dir.write_to(&mut out).is_err() {
            proof {
                assert(!(encode_utf8(ds[k as int]).len() <= u16::MAX));
            }
            return Err(AppError::CorruptArchive(msg("Путь слишком длинный")));
        }
        proof {
            assert(ds.take((k + 1) as int).drop_last() =~= ds.take(k as int));
        }
        k += 1;
    }
    proof {
        assert(ds.take(archived_directories.len() as int) =~= ds);
    }
    let table_size = out.len() as u64;
    if table_size > u64::MAX - 32 || table_offset > u64::MAX - 32 - table_size {
        return Err(AppError::CorruptArchive(msg("Некорректный размер таблиц")));
    }
    if archived_files.len() > 0xFFFF_FFFF {
        return Err(AppError::CorruptArchive(msg("Количество файлов превышает u32::MAX")));
    }
    if archived_directories.len() > 0xFFFF_FFFF {
        return Err(AppError::CorruptArchive(msg("Количество директорий превышает u32::MAX")));
    }
    let footer = ArchiveFooter {
        table_offset,
        table_size,
        file_count: archived_files.len() as u32,
        directory_count: archived_directories.len() as u32,
    };
    footer.write_to(&mut out);
    Ok(out)
}

proof fn lemma_parse_files_written(ms: Seq<EntryModel>, rest: Seq<u8>, limit: int)
    requires
        forall|i: int| 0 <= i < ms.len() ==> #[trigger] encode_utf8(ms[i].path).len() <= u16::MAX,
        files_bytes(ms).len() <= limit,
    ensures
        parse_files(files_bytes(ms) + rest, ms.len(), limit) == Ok::<(Seq<EntryModel>, int), ReadFailure>((ms, files_bytes(ms).len() as int)),
    decreases ms.len(),
{
    if ms.len() == 0 {
        assert(ms =~= seq![]);
    } else {
        let front = ms.drop_last();
        let last = ms.last();
        let tail = entry_bytes(last) + rest;
        assert(files_bytes(ms) + rest =~= files_bytes(front) + tail);
        lemma_parse_files_written(front, tail, limit);
        let pos = files_bytes(front).len() as int;
        assert((files_bytes(front) + tail).skip(pos) =~= tail);
        law_entry_round_trip(last, rest);
        assert(front.push(last) =~= ms);
    }
}

proof fn lemma_parse_dirs_written(prefix: Seq<u8>, ds: Seq<Seq<char>>, rest: Seq<u8>, limit: int)
    requires
        forall|i: int| 0 <= i < ds.len() ==> #[trigger] encode_utf8(ds[i]).len() <= u16::MAX,
        prefix.len() + dirs_bytes(ds).len() <= limit,
    ensures
        parse_dirs(prefix + dirs_bytes(ds) + rest, prefix.len() as int, ds.len(), limit) == Ok::<(Seq<Seq<char>>, int), ReadFailure>((ds, (prefix.len() + dirs_bytes(ds).len()) as int)),
    decreases ds.len(),
{
    if ds.len() == 0 {
        assert(ds =~= seq![]);
    } else {
        let front = ds.drop_last();
        let last = ds.last();
        let tail = path_field(last) + rest;
        assert(prefix + dirs_bytes(ds) + rest =~= prefix + dirs_bytes(front) + tail);
        lemma_parse_dirs_written(prefix, front, tail, limit);
        let pos = (prefix.len() + dirs_bytes(front).len()) as int;
        assert((prefix + dirs_bytes(front) + tail).skip(pos) =~= tail);
        law_path_round_trip(last, rest);
        assert(front.push(last) =~= ds);
    }
}

/// Reading back the tables and footer written for some entries gives those
/// entries: the footer reads back for an archive that ends with them, and
/// the table reads back as the same files and directories, in the same
/// order; when the payloads tile the archive (as `write_archive_header`
/// requires), that is `read_archive_entries`' condition for `Ok`. The
/// inputs are exactly those on which `write_archive_header` succeeds.
pub proof fn law_archive_tables_round_trip(ms: Seq<EntryModel>, ds: Seq<Seq<char>>, table_offset: u64)
    requires
        paths_fit(ms, ds),
        ms.len() <= u32::MAX,
        ds.len() <= u32::MAX,
        table_offset + (files_bytes(ms) + dirs_bytes(ds)).len() + 32 <= u64::MAX,
    ensures
        ({
            let f = footer_for(ms, ds, table_offset);
            let table = files_bytes(ms) + dirs_bytes(ds);
            &&& parse_footer(footer_bytes(f), (table_offset + table.len() + 32) as u64) == Some(f)
            &&& parse_table(table + footer_bytes(f), f) == Ok::<(Seq<EntryModel>, Seq<Seq<char>>), ReadFailure>((ms, ds))
            &&& payloads_tile(ms, table_offset) ==> (parse_table(table + footer_bytes(f), f) matches Ok((fs, ds2))
                && payloads_tile(fs, f.table_offset))
        }),
{
    let f = footer_for(ms, ds, table_offset);
    let fb = files_bytes(ms);
    let db = dirs_bytes(ds);
    let table = fb + db;
    law_footer_round_trip(f, (table_offset + table.len() + 32) as u64);
    let limit = table.len() as int;
    lemma_parse_files_written(ms, db + footer_bytes(f), limit);
    assert(fb + (db + footer_bytes(f)) =~= table + footer_bytes(f));
    lemma_parse_dirs_written(fb, ds, footer_bytes(f), limit);
    assert(fb + db + footer_bytes(f) =~= table + footer_bytes(f));
}

} // verus!
