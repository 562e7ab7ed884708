//! What the Huffman compressor writes, its decompressor reads back.
use vstd::prelude::*;
use vstd::bytes::*;
use crate::header::ReadFailure;
use crate::huffman::{huffman_decode_spec, lists_symbol, repeated, scan_table, table_entry};
use crate::huffman_code::{leaf_path, lemma_leaf_path_leads};
use crate::huffman_encode::{
    encoded_bits, huffman_header, huffman_output, lemma_listed, lemma_table_bytes_len, lemma_table_shape,
    lemma_table_total, lemma_tree_has_byte, needs_codes, symbol_table, table_bytes,
};
use crate::huffman_stream::{decode_symbols, lemma_walk_follows, packs, stream_bit, stream_has};
use crate::huffman_tree::{freq_total, huffman_tree, NodeOfHuffmanTree, SymbolWithFreq};

verus! {

proof fn lemma_table_bytes_at(list: Seq<SymbolWithFreq>, i: int)
    requires
        0 <= i < list.len(),
    ensures
        table_bytes(list)[9 * i] == list[i].symbol,
        table_bytes(list).subrange(9 * i + 1, 9 * i + 9) == spec_u64_to_le_bytes(list[i].freq),
    decreases list.len(),
{
    lemma_auto_spec_u64_to_from_le_bytes();
    let prev = list.drop_last();
    lemma_table_bytes_len(prev);
    let tb = table_bytes(list);
    if i < list.len() - 1 {
        lemma_table_bytes_at(prev, i);
        assert(tb.subrange(9 * i + 1, 9 * i + 9) =~= table_bytes(prev).subrange(9 * i + 1, 9 * i + 9));
    } else {
        assert(tb.subrange(9 * i + 1, 9 * i + 9) =~= spec_u64_to_le_bytes(list.last().freq));
    }
}

proof fn lemma_freq_total_prefix(list: Seq<SymbolWithFreq>, k: int)
    requires
        0 <= k <= list.len(),
    ensures
        freq_total(list.take(k)) <= freq_total(list),
        freq_total(list.take(k)) >= 0,
    decreases list.len(),
{
    if k < list.len() {
        lemma_freq_total_prefix(list.drop_last(), k);
        assert(list.drop_last().take(k) =~= list.take(k));
    } else {
        assert(list.take(k) =~= list);
        if list.len() > 0 {
            lemma_freq_total_prefix(list.drop_last(), k - 1);
            assert(list.drop_last().take(k - 1) =~= list.drop_last());
        }
    }
}

/// Reading back the table of the header.
proof fn lemma_scan_header(data: Seq<u8>, s: Seq<u8>, k: nat)
    requires
        data.len() <= u64::MAX,
        k <= symbol_table(data).len(),
        s.len() >= 10 + 9 * symbol_table(data).len(),
        s.subrange(10, (10 + 9 * symbol_table(data).len()) as int) == table_bytes(symbol_table(data)),
    ensures
        scan_table(s, k) == Ok::<(Seq<SymbolWithFreq>, int), ReadFailure>(
            (symbol_table(data).take(k as int), freq_total(symbol_table(data).take(k as int))),
        ),
    decreases k,
{
    let list = symbol_table(data);
    if k == 0 {
        assert(list.take(0) =~= Seq::<SymbolWithFreq>::empty());
    } else {
        lemma_scan_header(data, s, (k - 1) as nat);
        lemma_table_shape(data, 256);
        lemma_table_total(data);
        let i = k - 1;
        lemma_table_bytes_at(list, i);
        let tb = table_bytes(list);
        assert(s[10 + 9 * i] == tb[9 * i]);
        assert(s.subrange(11 + 9 * i, 19 + 9 * i) =~= tb.subrange(9 * i + 1, 9 * i + 9));
        lemma_auto_spec_u64_to_from_le_bytes();
        assert(table_entry(s, i) == list[i]);
        let prev = list.take(i);
        if lists_symbol(prev, list[i].symbol) {
            let j = choose|j: int| 0 <= j < prev.len() && #[trigger] prev[j].symbol == list[i].symbol;
            assert(list[j].symbol < list[i].symbol);
        }
        assert(list.take(k as int).drop_last() =~= prev);
        lemma_freq_total_prefix(list, k as int);
        assert(prev.push(list[i]) =~= list.take(k as int));
    }
}

/// The encoded bits of two pieces of data, one after the other.
proof fn lemma_encoded_concat(tree: NodeOfHuffmanTree, a: Seq<u8>, b: Seq<u8>)
    ensures
        encoded_bits(tree, a + b) == encoded_bits(tree, a) + encoded_bits(tree, b),
    decreases b.len(),
{
    if b.len() == 0 {
        assert(a + b =~= a);
        assert(encoded_bits(tree, a) + encoded_bits(tree, b) =~= encoded_bits(tree, a));
    } else {
        lemma_encoded_concat(tree, a, b.drop_last());
        assert((a + b).drop_last() =~= a + b.drop_last());
        assert((a + b).last() == b.last());
        assert(encoded_bits(tree, a) + encoded_bits(tree, b.drop_last()) + leaf_path(tree, b.last())
            =~= encoded_bits(tree, a) + encoded_bits(tree, b));
    }
}

/// Decoding the first `k` symbols of the packed codes of `data`.
proof fn lemma_decode_encoded(tree: NodeOfHuffmanTree, data: Seq<u8>, body: Seq<u8>, k: nat)
    requires
        packs(body, encoded_bits(tree, data)),
        k <= data.len(),
        forall|i: int| 0 <= i < data.len() ==> tree.has_leaf(#[trigger] data[i]),
    ensures
        decode_symbols(tree, body, k) == (data.take(k as int), encoded_bits(tree, data.take(k as int)).len() as int),
    decreases k,
{
    if k == 0 {
        assert(data.take(0) =~= Seq::<u8>::empty());
    } else {
        let i = k - 1;
        lemma_decode_encoded(tree, data, body, i as nat);
        let x = data[i];
        let lp = leaf_path(tree, x);
        let before = encoded_bits(tree, data.take(i));
        let p = before.len() as int;
        assert(data.take(k as int).drop_last() =~= data.take(i));
        assert(data.take(k as int).last() == x);
        let upto = encoded_bits(tree, data.take(k as int));
        assert(upto == before + lp);
        lemma_encoded_concat(tree, data.take(k as int), data.skip(k as int));
        assert(data.take(k as int) + data.skip(k as int) =~= data);
        let all = encoded_bits(tree, data);
        assert forall|j: int| 0 <= j < lp.len() implies #[trigger] stream_bit(body, p + j) == lp[j] by {
            assert(all[p + j] == upto[p + j]);
            assert(upto[p + j] == lp[j]);
            assert(p + j < all.len());
        }
        assert(stream_has(body, p, lp));
        assert(tree.has_leaf(data[i]));
        lemma_leaf_path_leads(tree, x);
        lemma_walk_follows(tree, lp, body, p, x);
        assert(data.take(i).push(x) =~= data.take(k as int));
    }
}

/// Decompressing what the compressor wrote gives back the data.
pub proof fn law_huffman_round_trip(data: Seq<u8>, out: Seq<u8>)
    requires
        data.len() <= u64::MAX,
        huffman_output(data, out),
    ensures
        huffman_decode_spec(out) == Ok::<Seq<u8>, ReadFailure>(data),
{
    lemma_auto_spec_u64_to_from_le_bytes();
    lemma_auto_spec_u16_to_from_le_bytes();
    let list = symbol_table(data);
    lemma_table_shape(data, 256);
    lemma_table_total(data);
    lemma_table_bytes_len(list);
    let n = list.len();
    let h = 10 + 9 * n;
    let size = data.len() as u64;
    let header = huffman_header(size, list);
    assert(out.take(h as int) == header);
    assert(out.subrange(0, 8) =~= header.subrange(0, 8));
    assert(header.subrange(0, 8) =~= spec_u64_to_le_bytes(size));
    assert(out.subrange(8, 10) =~= header.subrange(8, 10));
    assert(header.subrange(8, 10) =~= spec_u16_to_le_bytes(n as u16));
    assert(out.subrange(10, h as int) =~= header.subrange(10, h as int));
    assert(header.subrange(10, h as int) =~= table_bytes(list));
    lemma_scan_header(data, out, n);
    assert(list.take(n as int) =~= list);
    if size == 0 {
        assert(data =~= Seq::<u8>::empty());
    } else if n == 1 {
        assert forall|i: int| 0 <= i < data.len() implies #[trigger] data[i] == list[0].symbol by {
            lemma_listed(data, i);
        }
        assert(repeated(list[0].symbol, size as nat) =~= data);
    } else if n >= 2 {
        assert(needs_codes(data));
        let tree = huffman_tree(list);
        assert forall|i: int| 0 <= i < data.len() implies tree.has_leaf(#[trigger] data[i]) by {
            lemma_tree_has_byte(data, i);
        }
        assert(out.skip(h as int) =~= out.skip((10 + 9 * n) as int));
        lemma_decode_encoded(tree, data, out.skip(h as int), data.len());
        assert(data.take(data.len() as int) =~= data);
    }
}

} // verus!
