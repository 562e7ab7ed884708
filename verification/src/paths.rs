//! Where an entry of the archive is written when unpacking.
use vstd::prelude::*;
use crate::error::{AppError, msg};

verus! {

/// The pieces of `s` between `/` separators.
pub open spec fn split_slash(s: Seq<u8>) -> Seq<Seq<u8>>
    decreases s.len(),
{
    if s.len() == 0 {
        seq![seq![]]
    } else {
        let prev = split_slash(s.drop_last());
        if s.last() == 47u8 {
            prev.push(seq![])
        } else {
            prev.update(prev.len() - 1, prev.last().push(s.last()))
        }
    }
}

pub proof fn lemma_split_slash_nonempty(s: Seq<u8>)
    ensures
        split_slash(s).len() >= 1,
    decreases s.len(),
{
    if s.len() > 0 {
        lemma_split_slash_nonempty(s.drop_last());
    }
}

/// The components to add under the output directory: empty pieces and `.`
/// are skipped; a `..` anywhere makes the path unsafe (`None`).
pub open spec fn resolved_parts(parts: Seq<Seq<u8>>) -> Option<Seq<Seq<u8>>>
    decreases parts.len(),
{
    if parts.len() == 0 {
        Some(seq![])
    } else {
        match resolved_parts(parts.drop_last()) {
            None => None,
            Some(r) => {
                let p = parts.last();
                if p == seq![46u8, 46u8] {
                    None
                } else if p.len() == 0 || p == seq![46u8] {
                    Some(r)
                } else {
                    Some(r.push(p))
                }
            },
        }
    }
}

/// Whether the piece is `..`.
fn is_dot_dot(p: &[u8]) -> (r: bool)
    ensures
        r == (p@ == seq![46u8, 46u8]),
{
    let r = p.len() == 2 && p[0] == 46 && p[1] == 46;
    proof {
        if p@.len() == 2 && p@[0] == 46 && p@[1] == 46 {
            assert(p@ =~= seq![46u8, 46u8]);
        }
    }
    r
}

/// Whether the piece is empty or `.`.
fn is_skipped(p: &[u8]) -> (r: bool)
    ensures
        r == (p@.len() == 0 || p@ == seq![46u8]),
{
    let r = p.len() == 0 || (p.len() == 1 && p[0] == 46);
    proof {
        if p@.len() == 1 && p@[0] == 46 {
            assert(p@ =~= seq![46u8]);
        }
    }
    r
}

/// The path components under which an entry whose archive path is
/// `relative_path` is written; a path with `..` is refused.
pub fn resolve_output_path(relative_path: &[u8]) -> (r: Result<Vec<Vec<u8>>, AppError>)
    ensures
        r is Ok <==> resolved_parts(split_slash(relative_path@)) is Some,
        r matches Ok(parts) ==> resolved_parts(split_slash(relative_path@)) == Some(parts@.map_values(|p: Vec<u8>| p@)),
        r matches Err(e) ==> e is CorruptArchive,
{
    let ghost s = relative_path@;
    let mut pieces: Vec<Vec<u8>> = Vec::new();
    let mut current: Vec<u8> = Vec::new();
    let mut i: usize = 0;
    while i < relative_path.len()
        invariant
            s == relative_path@,
            i <= s.len(),
            pieces@.map_values(|p: Vec<u8>| p@).push(current@) == split_slash(s.take(i as int)),
        decreases s.len() - i,
    {
        let b = relative_path[i];
        let ghost before = pieces@.map_values(|p: Vec<u8>| p@);
        proof {
            assert(s.take(i + 1).drop_last() =~= s.take(i as int));
            lemma_split_slash_nonempty(s.take(i as int));
        }
        if b == 47 {
            let done = current;
            pieces.push(done);
            current = Vec::new();
            proof {
                assert(pieces@.map_values(|p: Vec<u8>| p@) =~= before.push(done@));
                assert(pieces@.map_values(|p: Vec<u8>| p@).push(current@) =~= split_slash(s.take(i + 1)));
            }
        } else {
            let ghost c0 = current@;
            current.push(b);
            proof {
                let prev = split_slash(s.take(i as int));
                assert(prev == before.push(c0));
                assert(before.push(current@) =~= prev.update(prev.len() - 1, prev.last().push(b)));
            }
        }
        i += 1;
    }
    pieces.push(current);
    proof {
        assert(s.take(s.len() as int) =~= s);
    }
    let ghost all = pieces@.map_values(|p: Vec<u8>| p@);
    let mut result: Vec<Vec<u8>> = Vec::new();
    let mut k: usize = 0;
    proof {
        assert(all.take(0) =~= Seq::<Seq<u8>>::empty());
        assert(result@.map_values(|p: Vec<u8>| p@) =~= Seq::<Seq<u8>>::empty());
    }
    while k < pieces.len()
        invariant
            s == relative_path@,
            all == pieces@.map_values(|p: Vec<u8>| p@),
            all == split_slash(s),
            k <= pieces@.len(),
            resolved_parts(all.take(k as int)) == Some(result@.map_values(|p: Vec<u8>| p@)),
        decreases pieces@.len() - k,
    {
        let p = pieces[k].as_slice();
        proof {
            assert(all.take(k + 1).drop_last() =~= all.take(k as int));
            assert(all.take(k + 1).last() == p@);
        }
        if is_dot_dot(p) {
            proof {
                lemma_bad_stays(all, k as int);
            }
            return Err(AppError::CorruptArchive(msg("Путь записи содержит '..' - потенциально небезопасный архив")));
        }
        if !is_skipped(p) {
            let ghost before = result@.map_values(|p: Vec<u8>| p@);
            result.push(vstd::slice::slice_to_vec(p));
            proof {
                assert(result@.map_values(|p: Vec<u8>| p@) =~= before.push(p@));
            }
        }
        k += 1;
    }
    proof {
        assert(all.take(all.len() as int) =~= all);
    }
    Ok(result)
}

proof fn lemma_bad_stays(all: Seq<Seq<u8>>, k: int)
    requires
        0 <= k < all.len(),
        all[k] == seq![46u8, 46u8],
    ensures
        resolved_parts(all) is None,
    decreases all.len(),
{
    if k < all.len() - 1 {
        lemma_bad_stays(all.drop_last(), k);
    }
}

} // verus!
