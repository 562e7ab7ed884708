//! The Huffman compressor.
//!
//! Stream: original size (u64), number of symbols `n` (u16), then `n`
//! entries (symbol: u8, frequency: u64), all little-endian, then the codes
//! of the data, bit-packed most significant bit first. Empty data and data
//! of a single symbol have no code bits.
use vstd::prelude::*;
use vstd::bytes::*;
use crate::bytes_io::{lemma_le_round_trips, push_u16_le, push_u64_le, read_u16_at, read_u64_at};
use crate::error::{AppError, msg};
use crate::header::{ReadFailure, reported_as};
use crate::huffman_code::{build_decode_table, entry_sound, index_bits, leads_to_symbol, DecodeEntry, TABLE_SIZE};
use crate::huffman_stream::{decode_symbols, lemma_walk_follows, peek_index, read_stream_bit, stream_bit, stream_has, walk_stream};
use crate::huffman_tree::{
    build_tree, build_from, freq_total, huffman_tree, leaves_of, min_index, lemma_min_index_bounds, HeapEntry,
    NodeOfHuffmanTree, SymbolWithFreq, ALPHABET_SIZE,
};

verus! {

/// Entry `i` of the symbol table of `s`.
pub open spec fn table_entry(s: Seq<u8>, i: int) -> SymbolWithFreq {
    SymbolWithFreq { symbol: s[10 + 9 * i], freq: spec_u64_from_le_bytes(s.subrange(11 + 9 * i, 19 + 9 * i)) }
}

/// The symbol `sym` occurs in `list`.
pub open spec fn lists_symbol(list: Seq<SymbolWithFreq>, sym: u8) -> bool {
    exists|j: int| 0 <= j < list.len() && #[trigger] list[j].symbol == sym
}

/// Reading the first `k` entries of the symbol table: the entries and the
/// sum of their frequencies, or why reading stopped.
pub open spec fn scan_table(s: Seq<u8>, k: nat) -> Result<(Seq<SymbolWithFreq>, int), ReadFailure>
    decreases k,
{
    if k == 0 {
        Ok((seq![], 0))
    } else {
        match scan_table(s, (k - 1) as nat) {
            Err(f) => Err(f),
            Ok((list, sum)) => {
                if s.len() < 10 + 9 * k {
                    Err(ReadFailure::Truncated)
                } else {
                    let e = table_entry(s, k - 1);
                    if e.freq == 0 || lists_symbol(list, e.symbol) {
                        Err(ReadFailure::Malformed)
                    } else if sum + e.freq > u64::MAX {
                        Err(ReadFailure::Malformed)
                    } else {
                        Ok((list.push(e), sum + e.freq))
                    }
                }
            },
        }
    }
}

/// `count` copies of `b`.
pub open spec fn repeated(b: u8, count: nat) -> Seq<u8> {
    Seq::new(count, |_i: int| b)
}

/// What decompressing `s` gives.
pub open spec fn huffman_decode_spec(s: Seq<u8>) -> Result<Seq<u8>, ReadFailure> {
    if s.len() < 10 {
        Err(ReadFailure::Truncated)
    } else {
        let size = spec_u64_from_le_bytes(s.subrange(0, 8));
        let n = spec_u16_from_le_bytes(s.subrange(8, 10)) as nat;
        if n > 256 {
            Err(ReadFailure::Malformed)
        } else {
            match scan_table(s, n) {
                Err(f) => Err(f),
                Ok((list, sum)) => {
                    if sum != size {
                        Err(ReadFailure::Malformed)
                    } else if size == 0 {
                        Ok(seq![])
                    } else if list.len() == 0 {
                        Err(ReadFailure::Malformed)
                    } else if list.len() == 1 {
                        Ok(repeated(list[0].symbol, size as nat))
                    } else {
                        Ok(decode_symbols(huffman_tree(list), s.skip((10 + 9 * n) as int), size as nat).0)
                    }
                },
            }
        }
    }
}

proof fn lemma_scan_sum(s: Seq<u8>, k: nat)
    requires
        scan_table(s, k) is Ok,
    ensures
        scan_table(s, k) matches Ok((list, sum)) && list.len() == k && sum == freq_total(list) && sum <= u64::MAX,
    decreases k,
{
    if k > 0 {
        lemma_scan_sum(s, (k - 1) as nat);
        if let Ok((list, sum)) = scan_table(s, k) {
            assert(list.drop_last() == scan_table(s, (k - 1) as nat)->Ok_0.0);
        }
    }
}

proof fn lemma_scan_error_stays(s: Seq<u8>, a: nat, n: nat)
    requires
        a <= n,
        scan_table(s, a) is Err,
    ensures
        scan_table(s, n) == scan_table(s, a),
    decreases n - a,
{
    if n > a {
        lemma_scan_error_stays(s, a, (n - 1) as nat);
    }
}

// ------------------------------------------------------------------
// Tree shape facts used by the decoder.
// ------------------------------------------------------------------

pub open spec fn queue_depth_bound(q: Seq<HeapEntry>, bound: int) -> bool {
    forall|i: int| 0 <= i < q.len() ==> #[trigger] q[i].node.depth() + q.len() <= bound
}

proof fn lemma_build_depth(q: Seq<HeapEntry>, next: u64, bound: int)
    requires
        q.len() >= 1,
        queue_depth_bound(q, bound),
    ensures
        build_from(q, next).depth() + 1 <= bound,
    decreases q.len(),
{
    if q.len() <= 1 {
        assert(q[0].node.depth() + q.len() <= bound);
    } else {
        lemma_min_index_bounds(q, q.len());
        let i = min_index(q);
        let a = q[i];
        let q1 = q.remove(i);
        lemma_min_index_bounds(q1, q1.len());
        let j = min_index(q1);
        let b = q1[j];
        let q2 = q1.remove(j);
        let merged = NodeOfHuffmanTree::Node {
            freq: (a.node.spec_freq() + b.node.spec_freq()) as u64,
            left: Box::new(a.node),
            right: Box::new(b.node),
        };
        let q3 = q2.push(HeapEntry { node: merged, seq: next });
        assert(a.node.depth() + q.len() <= bound);
        assert(q1[j] == q[if j < i { j } else { j + 1 }]);
        assert(b.node.depth() + q.len() <= bound);
        assert forall|k: int| 0 <= k < q3.len() implies #[trigger] q3[k].node.depth() + q3.len() <= bound by {
            if k < q2.len() {
                let k1 = if k < j { k } else { k + 1 };
                assert(q2[k] == q1[k1]);
                let k0 = if k1 < i { k1 } else { k1 + 1 };
                assert(q1[k1] == q[k0]);
            }
        }
        lemma_build_depth(q3, (next + 1) as u64, bound);
    }
}

/// A tree built from at most 256 symbols is at most 255 deep.
pub proof fn lemma_tree_depth(list: Seq<SymbolWithFreq>)
    requires
        1 <= list.len() <= 256,
    ensures
        huffman_tree(list).depth() <= 255,
{
    let q = leaves_of(list);
    assert forall|i: int| 0 <= i < q.len() implies #[trigger] q[i].node.depth() + q.len() <= 256 by {}
    lemma_build_depth(q, list.len() as u64, 256);
}

proof fn lemma_walk_bound(node: NodeOfHuffmanTree, body: Seq<u8>, p: int)
    ensures
        p <= walk_stream(node, body, p).1 <= p + node.depth(),
    decreases node,
{
    match node {
        NodeOfHuffmanTree::Leaf { .. } => {},
        NodeOfHuffmanTree::Node { left, right, .. } => {
            lemma_walk_bound(if stream_bit(body, p) { *right } else { *left }, body, p + 1);
        },
    }
}

proof fn lemma_decode_bound(root: NodeOfHuffmanTree, body: Seq<u8>, n: nat)
    ensures
        0 <= decode_symbols(root, body, n).1 <= n * root.depth(),
        decode_symbols(root, body, n).0.len() == n,
    decreases n,
{
    if n > 0 {
        lemma_decode_bound(root, body, (n - 1) as nat);
        let p = decode_symbols(root, body, (n - 1) as nat).1;
        lemma_walk_bound(root, body, p);
        assert((n - 1) * root.depth() + root.depth() == n * root.depth()) by (nonlinear_arith);
    }
}

/// Walks the tree from the root over the stream from bit `p`.
fn walk_tree(root: &NodeOfHuffmanTree, body: &[u8], p: u128) -> (r: (u8, u128))
    requires
        p + root.depth() <= u128::MAX,
    ensures
        r.0 == walk_stream(*root, body@, p as int).0,
        r.1 == walk_stream(*root, body@, p as int).1,
{
    let mut node: &NodeOfHuffmanTree = root;
    let mut q: u128 = p;
    loop
        invariant
            walk_stream(*root, body@, p as int) == walk_stream(*node, body@, q as int),
            q + node.depth() <= u128::MAX,
        decreases node.depth(),
    {
        match node {
            NodeOfHuffmanTree::Leaf { symbol, .. } => {
                return (*symbol, q);
            },
            NodeOfHuffmanTree::Node { left, right, .. } => {
                let bit = read_stream_bit(body, q);
                node = if bit { &**right } else { &**left };
                q = q + 1;
            },
        }
    }
}

pub struct HuffmanCompressor;

impl HuffmanCompressor {
    pub fn decompress(&self, data: &[u8]) -> (r: Result<Vec<u8>, AppError>)
        ensures
            r is Ok <==> huffman_decode_spec(data@) is Ok,
            r matches Ok(out) ==> huffman_decode_spec(data@) == Ok::<Seq<u8>, ReadFailure>(out@),
            r matches Err(e) ==> (huffman_decode_spec(data@) matches Err(f) && reported_as(f, e)),
    {
        let ghost s = data@;
        proof {
            lemma_le_round_trips();
        }
        if data.len() < 8 {
            return Err(AppError::Io(msg("Huffman: неожиданный конец потока")));
        }
        let original_size: u64 = read_u64_at(data, 0);
        if data.len() < 10 {
            return Err(AppError::Io(msg("Huffman: неожиданный конец потока")));
        }
        let distinct_count: usize = read_u16_at(data, 8) as usize;
        if distinct_count > ALPHABET_SIZE {
            return Err(AppError::CorruptArchive(msg("Huffman: число символов превышает размер алфавита")));
        }
        let mut nonzero_freqs: Vec<SymbolWithFreq> = Vec::new();
        let mut seen: Vec<bool> = Vec::new();
        let mut z: usize = 0;
        while z < ALPHABET_SIZE
            invariant
                z <= ALPHABET_SIZE,
                seen@.len() == z,
                forall|j: int| 0 <= j < z ==> !#[trigger] seen@[j],
            decreases ALPHABET_SIZE - z,
        {
            seen.push(false);
            z += 1;
        }
        let mut frequency_sum: u64 = 0;
        let mut i: usize = 0;
        while i < distinct_count
            invariant
                i <= distinct_count <= 256,
                s == data@,
                s.len() >= 10,
                distinct_count == spec_u16_from_le_bytes(s.subrange(8, 10)),
                scan_table(s, i as nat) == Ok::<(Seq<SymbolWithFreq>, int), ReadFailure>((nonzero_freqs@, frequency_sum as int)),
                nonzero_freqs@.len() == i,
                seen@.len() == 256,
                forall|b: u8| #[trigger] seen@[b as int] == lists_symbol(nonzero_freqs@, b),
            decreases distinct_count - i,
        {
            if data.len() - 10 < 9 * (i + 1) {
                proof {
                    lemma_scan_error_stays(s, (i + 1) as nat, distinct_count as nat);
                }
                return Err(AppError::Io(msg("Huffman: неожиданный конец потока")));
            }
            let symbol: u8 = data[10 + 9 * i];
            let freq: u64 = read_u64_at(data, 11 + 9 * i);
            proof {
                assert(table_entry(s, i as int) == SymbolWithFreq { symbol, freq });
            }
            if freq == 0 || seen[symbol as usize] {
                proof {
                    lemma_scan_error_stays(s, (i + 1) as nat, distinct_count as nat);
                }
                return Err(AppError::CorruptArchive(msg("Huffman: некорректная таблица частот")));
            }
            let ghost before = nonzero_freqs@;
            seen.set(symbol as usize, true);
            frequency_sum = match frequency_sum.checked_add(freq) {
                Some(v) => v,
                None => {
                    proof {
                        lemma_scan_error_stays(s, (i + 1) as nat, distinct_count as nat);
                    }
                    return Err(AppError::CorruptArchive(msg("Huffman: переполнение суммы частот")));
                },
            };
            nonzero_freqs.push(SymbolWithFreq { symbol, freq });
            proof {
                assert forall|b: u8| #[trigger] seen@[b as int] == lists_symbol(nonzero_freqs@, b) by {
                    if b == symbol {
                        assert(nonzero_freqs@[i as int].symbol == b);
                    } else {
                        if lists_symbol(nonzero_freqs@, b) {
                            let j = choose|j: int| 0 <= j < nonzero_freqs@.len() && #[trigger] nonzero_freqs@[j].symbol == b;
                            assert(before[j].symbol == b);
                        }
                        if lists_symbol(before, b) {
                            let j = choose|j: int| 0 <= j < before.len() && #[trigger] before[j].symbol == b;
                            assert(nonzero_freqs@[j].symbol == b);
                        }
                    }
                }
            }
            i += 1;
        }
        proof {
            lemma_scan_sum(s, distinct_count as nat);
        }
        if frequency_sum != original_size {
            return Err(AppError::CorruptArchive(msg("Huffman: сумма частот не совпадает с original_size")));
        }
        let mut out: Vec<u8> = Vec::new();
        if original_size == 0 {
            return Ok(out);
        }
        if nonzero_freqs.len() == 0 {
            return Err(AppError::CorruptArchive(msg("Huffman: Пустая частотная таблица при ненулевом original_size!")));
        }
        if nonzero_freqs.len() == 1 {
            let symbol = nonzero_freqs[0].symbol;
            let mut k: u64 = 0;
            while k < original_size
                invariant
                    k <= original_size,
                    out@ == repeated(symbol, k as nat),
                decreases original_size - k,
            {
                out.push(symbol);
                proof {
                    assert(out@ =~= repeated(symbol, (k + 1) as nat));
                }
                k += 1;
            }
            return Ok(out);
        }
        let tree = build_tree(nonzero_freqs.as_slice());
        let decode_table = build_decode_table(&tree);
        proof {
            crate::huffman::lemma_tree_depth(nonzero_freqs@);
        }
        let header_len = 10 + 9 * distinct_count;
        let body = vstd::slice::slice_subrange(data, header_len, data.len());
        let ghost b = body@;
        proof {
            assert(b =~= s.skip(10 + 9 * distinct_count));
        }
        let mut decoded_count: u64 = 0;
        let mut p: u128 = 0;
        while decoded_count < original_size
            invariant
                decoded_count <= original_size,
                tree == huffman_tree(nonzero_freqs@),
                tree.depth() <= 255,
                decode_table@.len() == TABLE_SIZE,
                forall|idx: int| 0 <= idx < TABLE_SIZE ==> #[trigger] entry_sound(tree, decode_table@[idx], idx),
                body@ == b,
                decode_symbols(tree, b, decoded_count as nat) == (out@, p as int),
            decreases original_size - decoded_count,
        {
            proof {
                lemma_decode_bound(tree, b, decoded_count as nat);
                assert(decoded_count as int * tree.depth() <= decoded_count as int * 255) by (nonlinear_arith)
                    requires
                        tree.depth() <= 255,
                        decoded_count >= 0,
                ;
                lemma_walk_bound(tree, b, p as int);
            }
            let idx = peek_index(body, p);
            let ghost walked = walk_stream(tree, b, p as int);
            match decode_table[idx as usize] {
                DecodeEntry::Symbol { symbol, code_len } => {
                    proof {
                        assert(entry_sound(tree, decode_table@[idx as int], idx as int));
                        let bits = index_bits(idx as int).take(code_len as int);
                        assert forall|j: int| 0 <= j < bits.len() implies #[trigger] stream_bit(b, p + j) == bits[j] by {
                            assert(index_bits(idx as int)[j] == Seq::new(12, |jj: int| stream_bit(body@, p + jj))[j]);
                        }
                        assert(stream_has(b, p as int, bits));
                        lemma_walk_follows(tree, bits, b, p as int, symbol);
                    }
                    out.push(symbol);
                    p = p + code_len as u128;
                },
                DecodeEntry::Escape => {
                    let (symbol, q) = walk_tree(&tree, body, p);
                    out.push(symbol);
                    p = q;
                },
            }
            decoded_count += 1;
        }
        Ok(out)
    }
}

} // verus!
