//! Checks that the payloads of an archive's files tile the payload section.
use vstd::prelude::*;
use vstd::relations::{sorted_by, total_ordering};
use vstd::seq_lib::{group_to_multiset_ensures, lemma_sorted_unique};
use crate::error::{AppError, msg};
use crate::header::{ArchivedArtifactEntry, EntryModel};
use crate::pipeline_settings::PipelineSettings;

verus! {

/// An entry of an empty file carries no payload, no pipeline and the
/// checksum placeholder.
pub open spec fn empty_entry_ok(m: EntryModel) -> bool {
    m.original_size != 0 || (m.stored_size == 0 && m.pipeline == PipelineSettings::spec_default()
        && m.crc32 == u32::MAX)
}

pub fn validate_empty_artifact_entry(entry: &ArchivedArtifactEntry) -> (r: Result<(), AppError>)
    ensures
        r is Ok <==> empty_entry_ok(entry.model()),
        r matches Err(e) ==> e is CorruptArchive,
{
    if entry.original_size != 0 {
        return Ok(());
    }
    if entry.stored_size != 0 {
        return Err(AppError::CorruptArchive(msg("Пустой файл содержит ненулевой payload")));
    }
    if entry.pipeline != PipelineSettings::default() {
        return Err(AppError::CorruptArchive(msg("Пустой файл содержит ненулевой pipeline")));
    }
    if entry.crc32 != u32::MAX {
        return Err(AppError::CorruptArchive(msg("Пустой файл содержит некорректную CRC32-заглушку")));
    }
    Ok(())
}

/// Lexicographic order on `(start, end)` pairs.
pub open spec fn range_leq(a: (u64, u64), b: (u64, u64)) -> bool {
    a.0 < b.0 || (a.0 == b.0 && a.1 <= b.1)
}

/// `range_leq` as a relation value.
pub open spec fn range_order() -> spec_fn((u64, u64), (u64, u64)) -> bool {
    |a: (u64, u64), b: (u64, u64)| range_leq(a, b)
}

/// The entry passes the per-entry checks against a payload section ending at `end`.
pub open spec fn entry_range_ok(m: EntryModel, end: u64) -> bool {
    &&& empty_entry_ok(m)
    &&& m.payload_offset + m.stored_size <= u64::MAX
    &&& m.payload_offset + m.stored_size <= end
}

/// The payload ranges of the entries that store something, in entry order.
pub open spec fn payload_ranges(ms: Seq<EntryModel>) -> Seq<(u64, u64)>
    decreases ms.len(),
{
    if ms.len() == 0 {
        seq![]
    } else {
        let m = ms.last();
        let rest = payload_ranges(ms.drop_last());
        if m.stored_size != 0 {
            rest.push((m.payload_offset, (m.payload_offset + m.stored_size) as u64))
        } else {
            rest
        }
    }
}

/// The ranges, in order, follow each other without gap from `start` to `end`.
pub open spec fn contiguous_from(rs: Seq<(u64, u64)>, start: u64, end: u64) -> bool
    decreases rs.len(),
{
    if rs.len() == 0 {
        start == end
    } else {
        rs[0].0 == start && contiguous_from(rs.drop_first(), rs[0].1, end)
    }
}

pub open spec fn models(files: Seq<ArchivedArtifactEntry>) -> Seq<EntryModel> {
    files.map_values(|e: ArchivedArtifactEntry| e.model())
}

/// The files' payloads exactly tile `[0, payload_end)`: every entry passes its
/// checks, and the non-empty payload ranges, sorted, follow each other from
/// 0 to `payload_end`.
pub open spec fn payloads_tile(ms: Seq<EntryModel>, payload_end: u64) -> bool {
    &&& forall|i: int| 0 <= i < ms.len() ==> #[trigger] entry_range_ok(ms[i], payload_end)
    &&& contiguous_from(payload_ranges(ms).sort_by(range_order()), 0, payload_end)
}

proof fn lemma_range_leq_total()
    ensures
        total_ordering(range_order()),
{
}

fn range_le(a: (u64, u64), b: (u64, u64)) -> (r: bool)
    ensures
        r == range_leq(a, b),
{
    a.0 < b.0 || (a.0 == b.0 && a.1 <= b.1)
}

/// Sorts the ranges by `range_leq`.
fn sort_ranges(ranges: Vec<(u64, u64)>) -> (r: Vec<(u64, u64)>)
    ensures
        sorted_by(r@, range_order()),
        r@.to_multiset() == ranges@.to_multiset(),
{
    broadcast use group_to_multiset_ensures;
    let ghost leq = range_order();
    let mut out: Vec<(u64, u64)> = Vec::new();
    let mut i: usize = 0;
    while i < ranges.len()
        invariant
            i <= ranges.len(),
            leq == range_order(),
            sorted_by(out@, leq),
            out@.to_multiset() == ranges@.take(i as int).to_multiset(),
        decreases ranges.len() - i,
    {
        let x = ranges[i];
        let mut p: usize = 0;
        while p < out.len() && range_le(out[p], x)
            invariant
                p <= out.len(),
                leq == range_order(),
                sorted_by(out@, leq),
                forall|j: int| 0 <= j < p ==> #[trigger] range_leq(out@[j], x),
            decreases out.len() - p,
        {
            p += 1;
        }
        proof {
            if p < out.len() {
                assert(!range_leq(out@[p as int], x));
                assert forall|j: int| p <= j < out@.len() implies #[trigger] range_leq(x, out@[j]) by {
                    if j > p {
                        assert(leq(out@[p as int], out@[j]));
                    }
                }
            }
        }
        let ghost before = out@;
        out.insert(p, x);
        proof {
            assert(out@ == before.insert(p as int, x));
            assert forall|a: int, b: int| 0 <= a < b < out@.len() implies #[trigger] leq(out@[a], out@[b]) by {
                if a < p && b == p {
                    assert(out@[a] == before[a]);
                    assert(range_leq(before[a], x));
                } else if a == p && b > p {
                    assert(out@[b] == before[b - 1]);
                    assert(range_leq(x, before[b - 1]));
                } else if a < p && b > p {
                    assert(out@[a] == before[a]);
                    assert(out@[b] == before[b - 1]);
                    assert(leq(before[a], before[b - 1]));
                } else if b < p {
                    assert(out@[a] == before[a]);
                    assert(out@[b] == before[b]);
                    assert(leq(before[a], before[b]));
                } else {
                    assert(out@[a] == before[a - 1]);
                    assert(out@[b] == before[b - 1]);
                    assert(leq(before[a - 1], before[b - 1]));
                }
            }
            assert(ranges@.take((i + 1) as int) =~= ranges@.take(i as int).push(x));
            assert(out@.to_multiset() == before.insert(p as int, x).to_multiset());
            vstd::seq_lib::to_multiset_build(ranges@.take(i as int), x);
            vstd::seq_lib::to_multiset_insert(before, p as int, x);
        }
        i += 1;
    }
    proof {
        assert(ranges@.take(ranges.len() as int) =~= ranges@);
    }
    out
}

pub fn validate_payload_ranges(files: &[ArchivedArtifactEntry], payload_end: u64) -> (r: Result<(), AppError>)
    ensures
        r is Ok <==> payloads_tile(models(files@), payload_end),
        r matches Err(e) ==> e is CorruptArchive,
{
    let ghost ms = models(files@);
    let mut ranges: Vec<(u64, u64)> = Vec::new();
    let mut i: usize = 0;
    while i < files.len()
        invariant
            i <= files.len(),
            ms == models(files@),
            forall|j: int| 0 <= j < i ==> #[trigger] entry_range_ok(ms[j], payload_end),
            ranges@ == payload_ranges(ms.take(i as int)),
        decreases files.len() - i,
    {
        let entry = &files[i];
        proof {
            assert(ms[i as int] == entry.model());
        }
        let checked = validate_empty_artifact_entry(entry);
        if checked.is_err() {
            proof {
                assert(!entry_range_ok(ms[i as int], payload_end));
            }
            return Err(AppError::CorruptArchive(msg("Пустой файл содержит некорректную запись")));
        }
        let end = match entry.payload_offset.checked_add(entry.stored_size) {
            Some(end) => end,
            None => {
                proof {
                    assert(!entry_range_ok(ms[i as int], payload_end));
                }
                return Err(AppError::CorruptArchive(msg("Переполнение payload диапазона")));
            },
        };
        if end > payload_end {
            proof {
                assert(!entry_range_ok(ms[i as int], payload_end));
            }
            return Err(AppError::CorruptArchive(msg("Payload выходит за пределы payload-секции")));
        }
        proof {
            assert(ms.take((i + 1) as int).drop_last() =~= ms.take(i as int));
        }
        if entry.stored_size != 0 {
            ranges.push((entry.payload_offset, end));
        }
        i += 1;
    }
    proof {
        assert(ms.take(files.len() as int) =~= ms);
    }
    let sorted = sort_ranges(ranges);
    let ghost leq = range_order();
    proof {
        lemma_range_leq_total();
        let spec_sorted = payload_ranges(ms).sort_by(leq);
        payload_ranges(ms).lemma_sort_by_ensures(leq);
        lemma_sorted_unique(sorted@, spec_sorted, leq);
        assert(sorted@ == spec_sorted);
    }
    let mut expected: u64 = 0;
    let mut k: usize = 0;
    proof {
        assert(sorted@.skip(0) =~= sorted@);
    }
    while k < sorted.len()
        invariant
            k <= sorted.len(),
            contiguous_from(sorted@, 0, payload_end) == contiguous_from(sorted@.skip(k as int), expected, payload_end),
            ms == models(files@),
            sorted@ == payload_ranges(ms).sort_by(range_order()),
            forall|j: int| 0 <= j < ms.len() ==> #[trigger] entry_range_ok(ms[j], payload_end),
        decreases sorted.len() - k,
    {
        let (start, end) = sorted[k];
        proof {
            assert(sorted@.skip(k as int).drop_first() =~= sorted@.skip((k + 1) as int));
        }
        proof {
            assert(sorted@.skip(k as int)[0] == sorted@[k as int]);
        }
        if start != expected {
            return Err(AppError::CorruptArchive(msg("Payload'ы не образуют непрерывную непересекающуюся секцию")));
        }
        expected = end;
        k += 1;
    }
    if expected != payload_end {
        return Err(AppError::CorruptArchive(msg("Конец payload-секции не совпадает с началом таблиц")));
    }
    Ok(())
}

} // verus!
