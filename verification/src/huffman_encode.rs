//! The Huffman compressor's encoding side: counting the symbols, the header
//! and the bit-packed codes.
use vstd::prelude::*;
use vstd::bytes::*;
use crate::bytes_io::{push_u16_le, push_u64_le};
use crate::error::{AppError, msg};
use crate::ids::CompressionId;
use crate::huffman::HuffmanCompressor;
use crate::huffman_code::{code_bits, create_huffman_codes, depth_at_most, leaf_path};
use crate::huffman_stream::{finish_bits, lemma_packed_empty, packed, packs, push_code};
use crate::huffman_tree::{
    build_from, build_tree, freq_total, huffman_tree, leaves_of, lemma_min_index_bounds, min_index, HeapEntry,
    HuffmanCode, NodeOfHuffmanTree, SymbolWithFreq, ALPHABET_SIZE,
};

verus! {

/// How often `b` occurs in `data`.
pub open spec fn occurrences(data: Seq<u8>, b: u8) -> nat
    decreases data.len(),
{
    if data.len() == 0 {
        0
    } else {
        occurrences(data.drop_last(), b) + if data.last() == b {
            1nat
        } else {
            0nat
        }
    }
}

/// The symbols below `k` that occur in `data`, in increasing order, with
/// their counts.
pub open spec fn symbol_table_upto(data: Seq<u8>, k: nat) -> Seq<SymbolWithFreq>
    decreases k,
{
    if k == 0 {
        seq![]
    } else {
        let prev = symbol_table_upto(data, (k - 1) as nat);
        let c = occurrences(data, (k - 1) as u8);
        if c > 0 {
            prev.push(SymbolWithFreq { symbol: (k - 1) as u8, freq: c as u64 })
        } else {
            prev
        }
    }
}

/// The frequency table of `data`: every byte value that occurs, in
/// increasing order, with its count.
pub open spec fn symbol_table(data: Seq<u8>) -> Seq<SymbolWithFreq> {
    symbol_table_upto(data, 256)
}

/// The table entries as stored: symbol, then frequency (u64, little-endian).
pub open spec fn table_bytes(list: Seq<SymbolWithFreq>) -> Seq<u8>
    decreases list.len(),
{
    if list.len() == 0 {
        seq![]
    } else {
        table_bytes(list.drop_last()) + seq![list.last().symbol] + spec_u64_to_le_bytes(list.last().freq)
    }
}

/// The stream header: original size, number of entries, the entries.
pub open spec fn huffman_header(size: u64, list: Seq<SymbolWithFreq>) -> Seq<u8> {
    spec_u64_to_le_bytes(size) + spec_u16_to_le_bytes(list.len() as u16) + table_bytes(list)
}

/// The codes of `data`, one after the other.
pub open spec fn encoded_bits(tree: NodeOfHuffmanTree, data: Seq<u8>) -> Seq<bool>
    decreases data.len(),
{
    if data.len() == 0 {
        seq![]
    } else {
        encoded_bits(tree, data.drop_last()) + leaf_path(tree, data.last())
    }
}

/// The number of code bits that the frequency table announces.
pub open spec fn estimated_bits(tree: NodeOfHuffmanTree, list: Seq<SymbolWithFreq>) -> int
    decreases list.len(),
{
    if list.len() == 0 {
        0
    } else {
        estimated_bits(tree, list.drop_last()) + leaf_path(tree, list.last().symbol).len() * list.last().freq
    }
}

/// The data has a code body: it is not empty and has at least two symbols.
pub open spec fn needs_codes(data: Seq<u8>) -> bool {
    data.len() > 0 && symbol_table(data).len() >= 2
}

/// The coded form would be at least as long as the data.
pub open spec fn not_worth_coding(data: Seq<u8>) -> bool {
    let list = symbol_table(data);
    10 + 9 * list.len() + (estimated_bits(huffman_tree(list), list) + 7) / 8 >= data.len()
}

/// `out` is the Huffman stream of `data`: the header, then (when there are
/// codes) the codes packed into bytes.
pub open spec fn huffman_output(data: Seq<u8>, out: Seq<u8>) -> bool {
    let list = symbol_table(data);
    let h = (10 + 9 * list.len()) as int;
    &&& out.len() >= h
    &&& out.take(h) == huffman_header(data.len() as u64, list)
    &&& if needs_codes(data) {
        packs(out.skip(h), encoded_bits(huffman_tree(list), data))
    } else {
        out.len() == h
    }
}

// ------------------------------------------------------------------
// Counting.
// ------------------------------------------------------------------

pub proof fn lemma_occurrences_bound(data: Seq<u8>, b: u8)
    ensures
        occurrences(data, b) <= data.len(),
    decreases data.len(),
{
    if data.len() > 0 {
        lemma_occurrences_bound(data.drop_last(), b);
    }
}

/// Every byte of `data` occurs in it.
pub proof fn lemma_occurs(data: Seq<u8>, i: int)
    requires
        0 <= i < data.len(),
    ensures
        occurrences(data, data[i]) > 0,
    decreases data.len(),
{
    if i < data.len() - 1 {
        lemma_occurs(data.drop_last(), i);
    }
}

/// The table below `k` lists symbols below `k`, strictly increasing, with
/// their nonzero counts.
pub proof fn lemma_table_shape(data: Seq<u8>, k: nat)
    requires
        k <= 256,
        data.len() <= u64::MAX,
    ensures
        symbol_table_upto(data, k).len() <= k,
        forall|j: int| 0 <= j < symbol_table_upto(data, k).len() ==> (#[trigger] symbol_table_upto(data, k)[j]).symbol < k
            && symbol_table_upto(data, k)[j].freq > 0
            && symbol_table_upto(data, k)[j].freq == occurrences(data, symbol_table_upto(data, k)[j].symbol),
        forall|i: int, j: int| 0 <= i < j < symbol_table_upto(data, k).len() ==>
            (#[trigger] symbol_table_upto(data, k)[i]).symbol < (#[trigger] symbol_table_upto(data, k)[j]).symbol,
        forall|b: u8| b < k && #[trigger] occurrences(data, b) > 0 ==>
            exists|j: int| 0 <= j < symbol_table_upto(data, k).len() && (#[trigger] symbol_table_upto(data, k)[j]).symbol == b,
    decreases k,
{
    if k > 0 {
        lemma_table_shape(data, (k - 1) as nat);
        let prev = symbol_table_upto(data, (k - 1) as nat);
        let cur = symbol_table_upto(data, k);
        let s = (k - 1) as u8;
        lemma_occurrences_bound(data, s);
        assert forall|b: u8| b < k && occurrences(data, b) > 0 implies exists|j: int| 0 <= j < cur.len() && (#[trigger] cur[j]).symbol == b by {
            if b == s {
                assert(cur[cur.len() - 1].symbol == b);
            } else {
                let j = choose|j: int| 0 <= j < prev.len() && (#[trigger] prev[j]).symbol == b;
                assert(cur[j] == prev[j]);
            }
        }
    }
}

spec fn occurrence_sum(data: Seq<u8>, k: nat) -> int
    decreases k,
{
    if k == 0 {
        0
    } else {
        occurrence_sum(data, (k - 1) as nat) + occurrences(data, (k - 1) as u8)
    }
}

proof fn lemma_occurrence_sum_push(data: Seq<u8>, x: u8, k: nat)
    requires
        k <= 256,
    ensures
        occurrence_sum(data.push(x), k) == occurrence_sum(data, k) + if x < k {
            1int
        } else {
            0int
        },
    decreases k,
{
    if k > 0 {
        lemma_occurrence_sum_push(data, x, (k - 1) as nat);
        assert(data.push(x).drop_last() =~= data);
    }
}

proof fn lemma_occurrence_sum_total(data: Seq<u8>)
    ensures
        occurrence_sum(data, 256) == data.len(),
    decreases data.len(),
{
    if data.len() > 0 {
        lemma_occurrence_sum_total(data.drop_last());
        lemma_occurrence_sum_push(data.drop_last(), data.last(), 256);
        assert(data.drop_last().push(data.last()) =~= data);
    } else {
        lemma_occurrence_sum_zero(data, 256);
    }
}

proof fn lemma_occurrence_sum_zero(data: Seq<u8>, k: nat)
    requires
        data.len() == 0,
    ensures
        occurrence_sum(data, k) == 0,
    decreases k,
{
    if k > 0 {
        lemma_occurrence_sum_zero(data, (k - 1) as nat);
    }
}

proof fn lemma_table_total_upto(data: Seq<u8>, k: nat)
    requires
        k <= 256,
        data.len() <= u64::MAX,
    ensures
        freq_total(symbol_table_upto(data, k)) == occurrence_sum(data, k),
    decreases k,
{
    if k > 0 {
        lemma_table_total_upto(data, (k - 1) as nat);
        lemma_occurrences_bound(data, (k - 1) as u8);
        let cur = symbol_table_upto(data, k);
        if occurrences(data, (k - 1) as u8) > 0 {
            assert(cur.drop_last() =~= symbol_table_upto(data, (k - 1) as nat));
        }
    }
}

/// The counts of the table add up to the length of the data.
pub proof fn lemma_table_total(data: Seq<u8>)
    requires
        data.len() <= u64::MAX,
    ensures
        freq_total(symbol_table(data)) == data.len(),
{
    lemma_table_total_upto(data, 256);
    lemma_occurrence_sum_total(data);
}

/// Every byte of the data is listed in its table.
pub proof fn lemma_listed(data: Seq<u8>, i: int)
    requires
        0 <= i < data.len(),
        data.len() <= u64::MAX,
    ensures
        exists|j: int| 0 <= j < symbol_table(data).len() && (#[trigger] symbol_table(data)[j]).symbol == data[i],
{
    lemma_occurs(data, i);
    lemma_table_shape(data, 256);
    let b = data[i];
    assert(b < 256 && occurrences(data, b) > 0);
    let j = choose|j: int| 0 <= j < symbol_table_upto(data, 256).len() && (#[trigger] symbol_table_upto(data, 256)[j]).symbol == b;
    assert(symbol_table(data)[j].symbol == data[i]);
}

// ------------------------------------------------------------------
// The tree keeps the leaves of the queue.
// ------------------------------------------------------------------

spec fn queue_has(q: Seq<HeapEntry>, s: u8) -> bool {
    exists|i: int| 0 <= i < q.len() && (#[trigger] q[i]).node.has_leaf(s)
}

proof fn lemma_build_keeps_leaves(q: Seq<HeapEntry>, next: u64, s: u8)
    requires
        q.len() >= 1,
        queue_has(q, s),
    ensures
        build_from(q, next).has_leaf(s),
    decreases q.len(),
{
    let w = choose|i: int| 0 <= i < q.len() && (#[trigger] q[i]).node.has_leaf(s);
    if q.len() <= 1 {
        assert(w == 0);
    } else {
        lemma_min_index_bounds(q, q.len());
        let i = min_index(q);
        let a = q[i];
        let q1 = q.remove(i);
        lemma_min_index_bounds(q1, q1.len());
        let j = min_index(q1);
        let b = q1[j];
        let q2 = q1.remove(j);
        let merged = NodeOfHuffmanTree::Node {
            freq: (a.node.spec_freq() + b.node.spec_freq()) as u64,
            left: Box::new(a.node),
            right: Box::new(b.node),
        };
        let q3 = q2.push(HeapEntry { node: merged, seq: next });
        if w == i {
            assert(q3[q3.len() - 1].node.has_leaf(s));
        } else {
            let w1 = if w < i { w } else { w - 1 };
            assert(q1[w1] == q[w]);
            if w1 == j {
                assert(q3[q3.len() - 1].node.has_leaf(s));
            } else {
                let w2 = if w1 < j { w1 } else { w1 - 1 };
                assert(q2[w2] == q1[w1]);
                assert(q3[w2] == q2[w2]);
            }
        }
        lemma_build_keeps_leaves(q3, (next + 1) as u64, s);
    }
}

/// Every listed symbol is at a leaf of the tree.
pub proof fn lemma_tree_has_listed(list: Seq<SymbolWithFreq>, j: int)
    requires
        0 <= j < list.len(),
    ensures
        huffman_tree(list).has_leaf(list[j].symbol),
{
    let q = leaves_of(list);
    assert(q[j].node.has_leaf(list[j].symbol));
    lemma_build_keeps_leaves(q, list.len() as u64, list[j].symbol);
}

/// Every byte of the data is at a leaf of its tree.
pub proof fn lemma_tree_has_byte(data: Seq<u8>, i: int)
    requires
        0 <= i < data.len(),
        data.len() <= u64::MAX,
    ensures
        huffman_tree(symbol_table(data)).has_leaf(data[i]),
{
    lemma_listed(data, i);
    let j = choose|j: int| 0 <= j < symbol_table(data).len() && (#[trigger] symbol_table(data)[j]).symbol == data[i];
    lemma_tree_has_listed(symbol_table(data), j);
}

// ------------------------------------------------------------------
// The compressor.
// ------------------------------------------------------------------

impl HuffmanCompressor {
    /// Compresses `data`. Data whose tree is deeper than 32 levels is refused,
    /// since its codes do not fit the 32-bit code table. With
    /// `allow_passthrough`, data that coding would not shorten comes back as
    /// it is, marked `NoCompression`.
    pub fn compress_impl(&self, data: &[u8], allow_passthrough: bool) -> (r: Result<(Vec<u8>, CompressionId), AppError>)
        ensures
            r is Err <==> (needs_codes(data@) && huffman_tree(symbol_table(data@)).depth() > 32),
            r matches Err(e) ==> e is Compression,
            r matches Ok((out, id)) ==> if allow_passthrough && needs_codes(data@) && not_worth_coding(data@) {
                id == CompressionId::NoCompression && out@ == data@
            } else {
                id == CompressionId::Huffman && huffman_output(data@, out@)
            },
    {
        let ghost d = data@;
        let mut freqs: Vec<u64> = Vec::new();
        let mut z: usize = 0;
        while z < ALPHABET_SIZE
            invariant
                z <= ALPHABET_SIZE,
                freqs@.len() == z,
                forall|j: int| 0 <= j < z ==> #[trigger] freqs@[j] == 0,
            decreases ALPHABET_SIZE - z,
        {
            freqs.push(0);
            z += 1;
        }
        proof {
            assert forall|b: u8| #[trigger] freqs@[b as int] == occurrences(d.take(0), b) by {}
        }
        let mut i: usize = 0;
        while i < data.len()
            invariant
                i <= data.len(),
                d == data@,
                freqs@.len() == 256,
                forall|b: u8| #[trigger] freqs@[b as int] == occurrences(d.take(i as int), b),
            decreases data.len() - i,
        {
            let b = data[i];
            proof {
                lemma_occurrences_bound(d.take(i as int), b);
                assert(d.take((i + 1) as int).drop_last() =~= d.take(i as int));
            }
            let f = freqs[b as usize];
            freqs.set(b as usize, f + 1);
            proof {
                assert forall|c: u8| #[trigger] freqs@[c as int] == occurrences(d.take((i + 1) as int), c) by {
                    assert(d.take((i + 1) as int).last() == b);
                }
            }
            i += 1;
        }
        proof {
            assert(d.take(d.len() as int) =~= d);
        }
        let original_size: u64 = data.len() as u64;
        let mut nonzero_freqs: Vec<SymbolWithFreq> = Vec::new();
        let mut k: usize = 0;
        while k < ALPHABET_SIZE
            invariant
                k <= ALPHABET_SIZE,
                d == data@,
                freqs@.len() == 256,
                forall|b: u8| #[trigger] freqs@[b as int] == occurrences(d, b),
                nonzero_freqs@ == symbol_table_upto(d, k as nat),
            decreases ALPHABET_SIZE - k,
        {
            let f = freqs[k];
            proof {
                assert(freqs@[(k as u8) as int] == occurrences(d, k as u8));
                lemma_occurrences_bound(d, k as u8);
            }
            if f > 0 {
                nonzero_freqs.push(SymbolWithFreq { symbol: k as u8, freq: f });
            }
            k += 1;
        }
        proof {
            lemma_table_shape(d, 256);
            lemma_table_total(d);
        }
        let ghost list = nonzero_freqs@;
        let n = nonzero_freqs.len();
        let mut out: Vec<u8> = Vec::new();
        push_u64_le(&mut out, original_size);
        push_u16_le(&mut out, n as u16);
        let mut t: usize = 0;
        while t < n
            invariant
                t <= n,
                n == list.len(),
                nonzero_freqs@ == list,
                out@ == spec_u64_to_le_bytes(original_size) + spec_u16_to_le_bytes(n as u16) + table_bytes(list.take(t as int)),
            decreases n - t,
        {
            let SymbolWithFreq { symbol, freq } = nonzero_freqs[t];
            out.push(symbol);
            push_u64_le(&mut out, freq);
            proof {
                assert(list.take((t + 1) as int).drop_last() =~= list.take(t as int));
            }
            t += 1;
        }
        proof {
            assert(list.take(n as int) =~= list);
            assert(huffman_header(d.len() as u64, list).len() == out@.len());
            vstd::bytes::lemma_auto_spec_u64_to_from_le_bytes();
            vstd::bytes::lemma_auto_spec_u16_to_from_le_bytes();
            lemma_table_bytes_len(list);
            assert(out@.take((10 + 9 * list.len()) as int) =~= out@);
        }
        if original_size == 0 || n <= 1 {
            return Ok((out, CompressionId::Huffman));
        }
        let tree = build_tree(nonzero_freqs.as_slice());
        if !depth_at_most(&tree, 32) {
            return Err(AppError::Compression(msg("Huffman: код длиннее 32 бит")));
        }
        let codes = create_huffman_codes(&tree);
        let mut est: u128 = 0;
        let mut e: usize = 0;
        while e < n
            invariant
                e <= n,
                n == list.len(),
                n <= 256,
                nonzero_freqs@ == list,
                tree == huffman_tree(list),
                codes@.len() == 256,
                forall|s: u8| #[trigger] tree.has_leaf(s) ==> code_bits(codes@[s as int].code, codes@[s as int].len as nat) == leaf_path(tree, s),
                forall|s: u8| #[trigger] tree.has_leaf(s) ==> codes@[s as int].len <= 32,
                est == estimated_bits(tree, list.take(e as int)),
                est <= e * 0x20_0000_0000_0000_0000u128,
            decreases n - e,
        {
            let SymbolWithFreq { symbol, freq } = nonzero_freqs[e];
            proof {
                lemma_tree_has_listed(list, e as int);
                assert(list.take((e + 1) as int).drop_last() =~= list.take(e as int));
            }
            let len = codes[symbol as usize].len;
            proof {
                assert(len as u128 * freq as u128 <= 0x20_0000_0000_0000_0000u128) by (nonlinear_arith)
                    requires
                        len <= 32,
                        freq <= u64::MAX,
                ;
            }
            let add = len as u128 * freq as u128;
            est = est + add;
            e += 1;
        }
        proof {
            assert(list.take(n as int) =~= list);
        }
        let coded_size: u128 = 10 + 9 * n as u128 + (est + 7) / 8;
        if allow_passthrough && coded_size >= original_size as u128 {
            return Ok((vstd::slice::slice_to_vec(data), CompressionId::NoCompression));
        }
        let ghost header = out@;
        let mut body: Vec<u8> = Vec::new();
        let mut cur: u8 = 0;
        let mut nb: u32 = 0;
        proof {
            lemma_packed_empty();
            assert(encoded_bits(tree, d.take(0)) =~= Seq::<bool>::empty());
        }
        let mut j: usize = 0;
        while j < data.len()
            invariant
                j <= data.len(),
                d == data@,
                d.len() <= u64::MAX,
                tree == huffman_tree(list),
                list == symbol_table(d),
                codes@.len() == 256,
                forall|s: u8| #[trigger] tree.has_leaf(s) ==> code_bits(codes@[s as int].code, codes@[s as int].len as nat) == leaf_path(tree, s),
                forall|s: u8| #[trigger] tree.has_leaf(s) ==> codes@[s as int].len <= 32,
                packed(body@, cur, nb, encoded_bits(tree, d.take(j as int))),
            decreases data.len() - j,
        {
            let b = data[j];
            proof {
                lemma_tree_has_byte(d, j as int);
                assert(d.take((j + 1) as int).drop_last() =~= d.take(j as int));
            }
            push_code(&mut body, &mut cur, &mut nb, codes[b as usize], Ghost(encoded_bits(tree, d.take(j as int))));
            j += 1;
        }
        proof {
            assert(d.take(d.len() as int) =~= d);
        }
        finish_bits(&mut body, cur, nb, Ghost(encoded_bits(tree, d)));
        let ghost bd = body@;
        crate::bytes_io::append_slice(&mut out, body.as_slice());
        proof {
            assert(out@.take((10 + 9 * list.len()) as int) =~= header);
            assert(out@.skip((10 + 9 * list.len()) as int) =~= bd);
        }
        Ok((out, CompressionId::Huffman))
    }
}

impl HuffmanCompressor {
    /// Compresses `data`; data that coding would not shorten comes back as it
    /// is, marked `NoCompression`.
    pub fn compress(&self, data: &[u8]) -> (r: Result<(Vec<u8>, CompressionId), AppError>)
        ensures
            r is Err <==> (needs_codes(data@) && huffman_tree(symbol_table(data@)).depth() > 32),
            r matches Err(e) ==> e is Compression,
            r matches Ok((out, id)) ==> if needs_codes(data@) && not_worth_coding(data@) {
                id == CompressionId::NoCompression && out@ == data@
            } else {
                id == CompressionId::Huffman && huffman_output(data@, out@)
            },
    {
        self.compress_impl(data, true)
    }

    /// Compresses `data` into a Huffman stream even where that does not
    /// shorten it (the second stage of Deflate has no way to skip itself).
    pub fn compress_always(&self, data: &[u8]) -> (r: Result<Vec<u8>, AppError>)
        ensures
            r is Err <==> (needs_codes(data@) && huffman_tree(symbol_table(data@)).depth() > 32),
            r matches Err(e) ==> e is Compression,
            r matches Ok(out) ==> huffman_output(data@, out@),
    {
        match self.compress_impl(data, false) {
            Ok((out, _id)) => Ok(out),
            Err(e) => Err(e),
        }
    }

    pub fn id(&self) -> (r: CompressionId)
        ensures
            r == CompressionId::Huffman,
    {
        CompressionId::Huffman
    }
}

pub proof fn lemma_table_bytes_len(list: Seq<SymbolWithFreq>)
    ensures
        table_bytes(list).len() == 9 * list.len(),
    decreases list.len(),
{
    vstd::bytes::lemma_auto_spec_u64_to_from_le_bytes();
    if list.len() > 0 {
        lemma_table_bytes_len(list.drop_last());
    }
}

} // verus!
