//! The totals that the archive listing shows.
use vstd::prelude::*;
use crate::header::ArchivedArtifactEntry;

verus! {

/// `a + b`, or `u64::MAX` when that does not fit.
pub open spec fn saturating_sum(a: int, b: int) -> int {
    if a + b > u64::MAX {
        u64::MAX as int
    } else {
        a + b
    }
}

/// The original sizes of the first `n` entries, added up from the first,
/// each addition saturating at `u64::MAX`.
pub open spec fn total_original(files: Seq<ArchivedArtifactEntry>, n: nat) -> int
    decreases n,
{
    if n == 0 {
        0
    } else {
        saturating_sum(total_original(files, (n - 1) as nat), files[n - 1].original_size as int)
    }
}

/// The stored sizes of the first `n` entries, added up in the same way.
pub open spec fn total_stored(files: Seq<ArchivedArtifactEntry>, n: nat) -> int
    decreases n,
{
    if n == 0 {
        0
    } else {
        saturating_sum(total_stored(files, (n - 1) as nat), files[n - 1].stored_size as int)
    }
}

/// The total original size and the total stored size of the archived files.
pub fn archive_totals(files: &[ArchivedArtifactEntry]) -> (r: (u64, u64))
    ensures
        r.0 == total_original(files@, files@.len()),
        r.1 == total_stored(files@, files@.len()),
{
    let mut original: u64 = 0;
    let mut stored: u64 = 0;
    let mut i: usize = 0;
    while i < files.len()
        invariant
            i <= files@.len(),
            original == total_original(files@, i as nat),
            stored == total_stored(files@, i as nat),
        decreases files@.len() - i,
    {
        original = original.saturating_add(files[i].original_size);
        stored = stored.saturating_add(files[i].stored_size);
        i += 1;
    }
    (original, stored)
}

} // verus!
