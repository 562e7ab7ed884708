//! Run-length encoding: the stream is a sequence of `(count, byte)` pairs.
use vstd::prelude::*;
use crate::error::{AppError, msg};
use crate::ids::CompressionId;

verus! {

/// `count` copies of `b`.
pub open spec fn repeat_byte(b: u8, count: nat) -> Seq<u8> {
    Seq::new(count, |_i: int| b)
}

/// The data that the `(count, byte)` pairs of `pairs` stand for (an odd
/// trailing byte is ignored).
pub open spec fn expand_runs(pairs: Seq<u8>) -> Seq<u8>
    decreases pairs.len(),
{
    if pairs.len() < 2 {
        seq![]
    } else if pairs.len() % 2 == 1 {
        expand_runs(pairs.drop_last())
    } else {
        expand_runs(pairs.take(pairs.len() - 2)) + repeat_byte(pairs.last(), pairs[pairs.len() - 2] as nat)
    }
}

/// Count of pair `j`.
pub open spec fn run_count(pairs: Seq<u8>, j: int) -> u8 {
    pairs[2 * j]
}

/// Byte of pair `j`.
pub open spec fn run_byte(pairs: Seq<u8>, j: int) -> u8 {
    pairs[2 * j + 1]
}

/// The pairs are what the encoder writes: every count is at least one, and a
/// run continues into the next pair only when it in_run reached 255.
pub open spec fn canonical_runs(pairs: Seq<u8>) -> bool {
    &&& pairs.len() % 2 == 0
    &&& forall|j: int| 0 <= j < pairs.len() / 2 ==> #[trigger] run_count(pairs, j) >= 1
    &&& forall|j: int|
        0 <= j && j + 1 < pairs.len() / 2 ==> #[trigger] run_byte(pairs, j) != run_byte(pairs, j + 1)
            || run_count(pairs, j) == 255
}

/// What decompressing `stream` gives: `None` when it ends in the middle of a pair.
pub open spec fn rle_decode_spec(stream: Seq<u8>) -> Option<Seq<u8>> {
    if stream.len() % 2 == 1 {
        None
    } else {
        Some(expand_runs(stream))
    }
}

proof fn lemma_expand_push(pairs: Seq<u8>, c: u8, b: u8)
    requires
        pairs.len() % 2 == 0,
    ensures
        expand_runs(pairs.push(c).push(b)) == expand_runs(pairs) + repeat_byte(b, c as nat),
{
    let p2 = pairs.push(c).push(b);
    assert(p2.take(p2.len() - 2) =~= pairs);
}

pub struct RleCompressor;

impl RleCompressor {
    pub fn compress(&self, data: &[u8]) -> (r: Result<(Vec<u8>, CompressionId), AppError>)
        ensures
            r matches Ok((out, id)) && id == CompressionId::RLE && canonical_runs(out@) && expand_runs(
                out@,
            ) == data@,
    {
        let mut out: Vec<u8> = Vec::new();
        let mut in_run: bool = false;
        let mut cur: u8 = 0;
        let mut count: u32 = 0;
        let mut i: usize = 0;
        while i < data.len()
            invariant
                i <= data.len(),
                out@.len() % 2 == 0,
                canonical_runs(out@),
                !in_run ==> i == 0 && out@.len() == 0,
                in_run ==> 1 <= count <= 255,
                in_run ==> expand_runs(out@) + repeat_byte(cur, count as nat) == data@.take(i as int),
                in_run && out@.len() >= 2 ==> (out@.last() != cur || out@[out@.len() - 2] == 255),
            decreases data.len() - i,
        {
            let b = data[i];
            let ghost old_out = out@;
            if in_run && cur == b && count < 255 {
                count += 1;
                proof {
                    assert(repeat_byte(cur, count as nat) =~= repeat_byte(cur, (count - 1) as nat).push(b));
                    assert(data@.take((i + 1) as int) =~= data@.take(i as int).push(b));
                }
            } else if in_run {
                out.push(count as u8);
                out.push(cur);
                proof {
                    lemma_expand_push(old_out, count as u8, cur);
                    let n = old_out.len() / 2;
                    assert(out@.len() / 2 == n + 1);
                    assert forall|j: int| 0 <= j < out@.len() / 2 implies #[trigger] run_count(out@, j) >= 1 by {
                        if j < n {
                            assert(run_count(out@, j) == run_count(old_out, j));
                        }
                    }
                    assert forall|j: int|
                        0 <= j && j + 1 < out@.len() / 2 implies #[trigger] run_byte(out@, j) != run_byte(out@, j + 1)
                            || run_count(out@, j) == 255 by {
                        if j + 1 < n {
                            assert(run_byte(out@, j) == run_byte(old_out, j));
                            assert(run_byte(out@, j + 1) == run_byte(old_out, j + 1));
                            assert(run_count(out@, j) == run_count(old_out, j));
                        } else {
                            assert(j + 1 == n);
                            assert(run_byte(out@, j) == old_out.last());
                            assert(run_count(out@, j) == old_out[old_out.len() - 2]);
                        }
                    }
                    assert(data@.take((i + 1) as int) =~= data@.take(i as int).push(b));
                    assert(repeat_byte(b, 1) =~= seq![b]);
                }
                cur = b;
                count = 1;
            } else {
                in_run = true;
                cur = b;
                count = 1;
                proof {
                    assert(repeat_byte(b, 1) =~= seq![b]);
                    assert(data@.take(1) =~= seq![b]);
                    assert(expand_runs(out@) =~= seq![]);
                }
            }
            i += 1;
        }
        if in_run {
            let ghost old_out = out@;
            out.push(count as u8);
            out.push(cur);
            proof {
                lemma_expand_push(old_out, count as u8, cur);
                let n = old_out.len() / 2;
                assert forall|j: int| 0 <= j < out@.len() / 2 implies #[trigger] run_count(out@, j) >= 1 by {
                    if j < n {
                        assert(run_count(out@, j) == run_count(old_out, j));
                    }
                }
                assert forall|j: int|
                    0 <= j && j + 1 < out@.len() / 2 implies #[trigger] run_byte(out@, j) != run_byte(out@, j + 1)
                        || run_count(out@, j) == 255 by {
                    if j + 1 < n {
                        assert(run_byte(out@, j) == run_byte(old_out, j));
                        assert(run_byte(out@, j + 1) == run_byte(old_out, j + 1));
                        assert(run_count(out@, j) == run_count(old_out, j));
                    } else {
                        assert(run_byte(out@, j) == old_out.last());
                        assert(run_count(out@, j) == old_out[old_out.len() - 2]);
                    }
                }
            }
        }
        proof {
            assert(data@.take(data@.len() as int) =~= data@);
            if !in_run {
                assert(expand_runs(out@) =~= seq![]);
                assert(data@ =~= seq![]);
            }
        }
        Ok((out, CompressionId::RLE))
    }

    pub fn decompress(&self, data: &[u8]) -> (r: Result<Vec<u8>, AppError>)
        ensures
            r is Ok <==> rle_decode_spec(data@) is Some,
            r matches Ok(out) ==> rle_decode_spec(data@) == Some(out@),
            r matches Err(e) ==> e is Compression,
    {
        let mut out: Vec<u8> = Vec::new();
        let mut i: usize = 0;
        while i + 1 < data.len()
            invariant
                i % 2 == 0,
                i <= data.len(),
                out@ == expand_runs(data@.take(i as int)),
            decreases data.len() - i,
        {
            let count = data[i];
            let value = data[i + 1];
            let ghost before = out@;
            let mut c: u8 = 0;
            while c < count
                invariant
                    c <= count,
                    out@ == before + repeat_byte(value, c as nat),
                decreases count - c,
            {
                out.push(value);
                proof {
                    assert(repeat_byte(value, (c + 1) as nat) =~= repeat_byte(value, c as nat).push(value));
                }
                c += 1;
            }
            proof {
                lemma_expand_push(data@.take(i as int), count, value);
                assert(data@.take(i as int).push(count).push(value) =~= data@.take((i + 2) as int));
            }
            i += 2;
        }
        if i < data.len() {
            return Err(AppError::Compression(msg("RLE: Поток оборван на середине пары (count, value)!")));
        }
        proof {
            assert(data@.take(i as int) =~= data@);
        }
        Ok(out)
    }

    pub fn id(&self) -> (r: CompressionId)
        ensures
            r == CompressionId::RLE,
    {
        CompressionId::RLE
    }
}

/// What the encoder writes decompresses to the original data.
pub proof fn law_rle_round_trip(data: Seq<u8>, encoded: Seq<u8>)
    requires
        canonical_runs(encoded),
        expand_runs(encoded) == data,
    ensures
        rle_decode_spec(encoded) == Some(data),
{
}

} // verus!
