//! Building the Huffman tree and its code table.
//!
//! The tree is built deterministically, so that compressor and decompressor
//! build the same tree from the same frequency table: the two entries with
//! the smallest `(frequency, sequence number)` are merged (the smaller one
//! on the left); leaves are numbered in input order, merged nodes after them.
use vstd::prelude::*;

verus! {

pub const ALPHABET_SIZE: usize = 256;

/// A code of at most 32 bits: the low `len` bits of `code`, most significant first.
#[derive(Debug, Clone, Copy)]
pub struct HuffmanCode {
    pub code: u32,
    pub len: u8,
}

#[derive(Debug, Clone, Copy)]
pub struct SymbolWithFreq {
    pub symbol: u8,
    pub freq: u64,
}

pub enum NodeOfHuffmanTree {
    Leaf { symbol: u8, freq: u64 },
    Node { freq: u64, left: Box<NodeOfHuffmanTree>, right: Box<NodeOfHuffmanTree> },
}

impl NodeOfHuffmanTree {
    pub open spec fn spec_freq(&self) -> u64 {
        match self {
            NodeOfHuffmanTree::Leaf { freq, .. } => *freq,
            NodeOfHuffmanTree::Node { freq, .. } => *freq,
        }
    }

    pub fn freq(&self) -> (r: u64)
        ensures
            r == self.spec_freq(),
    {
        match self {
            NodeOfHuffmanTree::Leaf { freq, .. } => *freq,
            NodeOfHuffmanTree::Node { freq, .. } => *freq,
        }
    }

    /// Length of the longest path from this node to a leaf.
    pub open spec fn depth(&self) -> nat
        decreases self,
    {
        match self {
            NodeOfHuffmanTree::Leaf { .. } => 0,
            NodeOfHuffmanTree::Node { left, right, .. } => {
                let l = left.depth();
                let r = right.depth();
                1 + if l >= r { l } else { r }
            },
        }
    }

    /// The symbol `s` is at some leaf.
    pub open spec fn has_leaf(&self, s: u8) -> bool
        decreases self,
    {
        match self {
            NodeOfHuffmanTree::Leaf { symbol, .. } => *symbol == s,
            NodeOfHuffmanTree::Node { left, right, .. } => left.has_leaf(s) || right.has_leaf(s),
        }
    }
}

/// A queue entry: the subtree and its sequence number.
pub struct HeapEntry {
    pub node: NodeOfHuffmanTree,
    pub seq: u64,
}

/// Entry `a` comes out of the queue before entry `b`.
pub open spec fn before(a: (u64, u64), b: (u64, u64)) -> bool {
    a.0 < b.0 || (a.0 == b.0 && a.1 < b.1)
}

pub open spec fn key(e: HeapEntry) -> (u64, u64) {
    (e.node.spec_freq(), e.seq)
}

/// Index of the first entry that comes out first among the first `n` entries.
pub open spec fn min_index_upto(q: Seq<HeapEntry>, n: nat) -> int
    decreases n,
{
    if n <= 1 {
        0
    } else {
        let m = min_index_upto(q, (n - 1) as nat);
        if before(key(q[n - 1]), key(q[m])) {
            n - 1
        } else {
            m
        }
    }
}

pub open spec fn min_index(q: Seq<HeapEntry>) -> int {
    min_index_upto(q, q.len())
}

/// The tree that repeated merging of the queue `q` gives; `next` is the next
/// sequence number.
pub open spec fn build_from(q: Seq<HeapEntry>, next: u64) -> NodeOfHuffmanTree
    decreases q.len(),
{
    if q.len() <= 1 {
        q[0].node
    } else {
        proof {
            lemma_min_index_bounds(q, q.len());
            lemma_min_index_bounds(q.remove(min_index(q)), (q.len() - 1) as nat);
        }
        let i = min_index(q);
        let a = q[i];
        let q1 = q.remove(i);
        let j = min_index(q1);
        let b = q1[j];
        let q2 = q1.remove(j);
        let merged = NodeOfHuffmanTree::Node {
            freq: (a.node.spec_freq() + b.node.spec_freq()) as u64,
            left: Box::new(a.node),
            right: Box::new(b.node),
        };
        build_from(q2.push(HeapEntry { node: merged, seq: next }), (next + 1) as u64)
    }
}

/// The leaves for the input, numbered in input order.
pub open spec fn leaves_of(freqs: Seq<SymbolWithFreq>) -> Seq<HeapEntry> {
    Seq::new(
        freqs.len(),
        |i: int| HeapEntry { node: NodeOfHuffmanTree::Leaf { symbol: freqs[i].symbol, freq: freqs[i].freq }, seq: i as u64 },
    )
}

/// The Huffman tree of the frequency table.
pub open spec fn huffman_tree(freqs: Seq<SymbolWithFreq>) -> NodeOfHuffmanTree {
    build_from(leaves_of(freqs), freqs.len() as u64)
}

/// Sum of the frequencies in the queue.
pub open spec fn queue_total(q: Seq<HeapEntry>) -> int
    decreases q.len(),
{
    if q.len() == 0 {
        0
    } else {
        queue_total(q.drop_last()) + q.last().node.spec_freq()
    }
}

pub open spec fn freq_total(freqs: Seq<SymbolWithFreq>) -> int
    decreases freqs.len(),
{
    if freqs.len() == 0 {
        0
    } else {
        freq_total(freqs.drop_last()) + freqs.last().freq
    }
}

pub proof fn lemma_min_index_bounds(q: Seq<HeapEntry>, n: nat)
    requires
        1 <= n <= q.len(),
    ensures
        0 <= min_index_upto(q, n) < n,
        forall|k: int| 0 <= k < n ==> !before(#[trigger] key(q[k]), key(q[min_index_upto(q, n)])),
    decreases n,
{
    if n > 1 {
        lemma_min_index_bounds(q, (n - 1) as nat);
    }
}

proof fn lemma_queue_total_remove(q: Seq<HeapEntry>, i: int)
    requires
        0 <= i < q.len(),
    ensures
        queue_total(q) == queue_total(q.remove(i)) + q[i].node.spec_freq(),
    decreases q.len(),
{
    if i < q.len() - 1 {
        lemma_queue_total_remove(q.drop_last(), i);
        assert(q.remove(i).drop_last() =~= q.drop_last().remove(i));
        assert(q.remove(i).last() == q.last());
    } else {
        assert(q.remove(i) =~= q.drop_last());
    }
}

proof fn lemma_queue_total_nonneg(q: Seq<HeapEntry>)
    ensures
        queue_total(q) >= 0,
    decreases q.len(),
{
    if q.len() > 0 {
        lemma_queue_total_nonneg(q.drop_last());
    }
}

proof fn lemma_leaves_total(freqs: Seq<SymbolWithFreq>)
    ensures
        queue_total(leaves_of(freqs)) == freq_total(freqs),
    decreases freqs.len(),
{
    if freqs.len() > 0 {
        lemma_leaves_total(freqs.drop_last());
        assert(leaves_of(freqs).drop_last() =~= leaves_of(freqs.drop_last()));
    }
}

/// Finds the entry that comes out of the queue first.
fn pop_min(q: &mut Vec<HeapEntry>) -> (r: HeapEntry)
    requires
        old(q)@.len() >= 1,
    ensures
        r == old(q)@[min_index(old(q)@)],
        final(q)@ == old(q)@.remove(min_index(old(q)@)),
{
    let ghost s = q@;
    let mut m: usize = 0;
    let mut k: usize = 1;
    while k < q.len()
        invariant
            q@ == s,
            1 <= k <= q.len(),
            m == min_index_upto(s, k as nat),
        decreases q.len() - k,
    {
        proof {
            lemma_min_index_bounds(s, k as nat);
        }
        let fk = q[k].node.freq();
        let fm = q[m].node.freq();
        if fk < fm || (fk == fm && q[k].seq < q[m].seq) {
            m = k;
        }
        k += 1;
    }
    proof {
        lemma_min_index_bounds(s, s.len());
    }
    q.remove(m)
}

/// Builds the Huffman tree for a non-empty frequency table whose total fits in 64 bits.
pub fn build_tree(nonzero_freqs: &[SymbolWithFreq]) -> (r: NodeOfHuffmanTree)
    requires
        nonzero_freqs@.len() >= 1,
        nonzero_freqs@.len() <= u64::MAX / 2,
        freq_total(nonzero_freqs@) <= u64::MAX,
    ensures
        r == huffman_tree(nonzero_freqs@),
{
    let mut heap: Vec<HeapEntry> = Vec::new();
    let mut seq: u64 = 0;
    let mut i: usize = 0;
    while i < nonzero_freqs.len()
        invariant
            i <= nonzero_freqs@.len(),
            nonzero_freqs@.len() <= u64::MAX / 2,
            seq == i,
            heap@ == leaves_of(nonzero_freqs@).take(i as int),
        decreases nonzero_freqs@.len() - i,
    {
        let SymbolWithFreq { symbol, freq } = nonzero_freqs[i];
        heap.push(HeapEntry { node: NodeOfHuffmanTree::Leaf { symbol, freq }, seq });
        proof {
            assert(heap@ =~= leaves_of(nonzero_freqs@).take((i + 1) as int));
        }
        seq += 1;
        i += 1;
    }
    proof {
        assert(heap@ =~= leaves_of(nonzero_freqs@));
        lemma_leaves_total(nonzero_freqs@);
    }
    let ghost total = freq_total(nonzero_freqs@);
    while heap.len() > 1
        invariant
            heap@.len() >= 1,
            build_from(heap@, seq) == huffman_tree(nonzero_freqs@),
            queue_total(heap@) == total,
            total <= u64::MAX,
            seq as int + heap@.len() == 2 * nonzero_freqs@.len(),
            nonzero_freqs@.len() <= u64::MAX / 2,
        decreases heap@.len(),
    {
        let ghost q = heap@;
        proof {
            lemma_min_index_bounds(q, q.len());
        }
        let a = pop_min(&mut heap);
        let ghost q1 = heap@;
        proof {
            lemma_min_index_bounds(q1, q1.len());
        }
        let b = pop_min(&mut heap);
        proof {
            lemma_queue_total_remove(q, min_index(q));
            lemma_queue_total_remove(q1, min_index(q1));
            lemma_queue_total_nonneg(heap@);
        }
        let fa = a.node.freq();
        let fb = b.node.freq();
        let merged = NodeOfHuffmanTree::Node {
            freq: fa + fb,
            left: Box::new(a.node),
            right: Box::new(b.node),
        };
        let ghost q2 = heap@;
        heap.push(HeapEntry { node: merged, seq });
        proof {
            assert(heap@.drop_last() =~= q2);
            assert(queue_total(heap@) == total);
        }
        seq += 1;
    }
    let last = heap.remove(0);
    last.node
}

} // verus!
