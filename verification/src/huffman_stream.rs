//! Bit streams for the Huffman coder: packing codes into bytes (most
//! significant bit first, the last byte padded with zero bits) and walking
//! the tree over a byte stream (bits past the end read as zero).
use vstd::prelude::*;
use crate::huffman_code::{code_bits, descend, index_bits, lemma_code_bits_push};
use crate::huffman_tree::{HuffmanCode, NodeOfHuffmanTree};

verus! {

/// Bit `i` of the byte stream, most significant bit of each byte first;
/// bits past the end are zero.
pub open spec fn stream_bit(body: Seq<u8>, i: int) -> bool {
    0 <= i < 8 * body.len() && (body[i / 8] >> ((7 - i % 8) as u8)) & 1u8 == 1u8
}

/// Walking the tree from `node` over the stream from bit `p`: the symbol of
/// the leaf reached and the position after the code.
pub open spec fn walk_stream(node: NodeOfHuffmanTree, body: Seq<u8>, p: int) -> (u8, int)
    decreases node,
{
    match node {
        NodeOfHuffmanTree::Leaf { symbol, .. } => (symbol, p),
        NodeOfHuffmanTree::Node { left, right, .. } => walk_stream(
            if stream_bit(body, p) { *right } else { *left },
            body,
            p + 1,
        ),
    }
}

/// Decoding `n` symbols from the start of the stream: the symbols and the
/// position after them.
pub open spec fn decode_symbols(root: NodeOfHuffmanTree, body: Seq<u8>, n: nat) -> (Seq<u8>, int)
    decreases n,
{
    if n == 0 {
        (seq![], 0)
    } else {
        let (xs, p) = decode_symbols(root, body, (n - 1) as nat);
        let (s, q) = walk_stream(root, body, p);
        (xs.push(s), q)
    }
}

/// The stream bits from `p` on begin with `bits`.
pub open spec fn stream_has(body: Seq<u8>, p: int, bits: Seq<bool>) -> bool {
    forall|j: int| 0 <= j < bits.len() ==> #[trigger] stream_bit(body, p + j) == bits[j]
}

/// A path that leads to a leaf leads the walk there.
pub proof fn lemma_walk_follows(node: NodeOfHuffmanTree, bits: Seq<bool>, body: Seq<u8>, p: int, s: u8)
    requires
        descend(node, bits) matches Some(NodeOfHuffmanTree::Leaf { symbol, .. }) && symbol == s,
        stream_has(body, p, bits),
    ensures
        walk_stream(node, body, p) == (s, p + bits.len()),
    decreases bits.len(),
{
    if bits.len() > 0 {
        match node {
            NodeOfHuffmanTree::Leaf { .. } => {},
            NodeOfHuffmanTree::Node { left, right, .. } => {
                assert(stream_bit(body, p + 0) == bits[0]);
                let next = if bits[0] { *right } else { *left };
                assert forall|j: int| 0 <= j < bits.drop_first().len() implies #[trigger] stream_bit(body, (p + 1) + j) == bits.drop_first()[j] by {
                    assert(stream_bit(body, p + (j + 1)) == bits[j + 1]);
                }
                lemma_walk_follows(next, bits.drop_first(), body, p + 1, s);
            },
        }
    }
}

/// Bit `p` of the stream.
pub fn read_stream_bit(body: &[u8], p: u128) -> (r: bool)
    ensures
        r == stream_bit(body@, p as int),
{
    let len = body.len() as u128;
    if p < 8 * len {
        let byte = body[(p / 8) as usize];
        let shift = (7 - p % 8) as u8;
        (byte >> shift) & 1 == 1
    } else {
        false
    }
}

/// The 12 bits of the stream from bit `p`, as a table index.
pub fn peek_index(body: &[u8], p: u128) -> (r: u32)
    requires
        p + 12 <= u128::MAX,
    ensures
        r < 4096,
        index_bits(r as int) == Seq::new(12, |j: int| stream_bit(body@, p + j)),
{
    let mut idx: u32 = 0;
    let mut t: u32 = 0;
    proof {
        crate::bits::lemma_word_facts(0);
        assert(code_bits(0, 0) =~= Seq::new(0, |j: int| stream_bit(body@, p + j)));
    }
    while t < 12
        invariant
            t <= 12,
            p + 12 <= u128::MAX,
            idx < (1u32 << t),
            code_bits(idx, t as nat) == Seq::new(t as nat, |j: int| stream_bit(body@, p + j)),
        decreases 12 - t,
    {
        let b = read_stream_bit(body, p + t as u128);
        let bv: u32 = if b { 1 } else { 0 };
        proof {
            lemma_code_bits_push(idx, t as nat, bv);
            assert(Seq::new(t as nat, |j: int| stream_bit(body@, p + j)).push(bv == 1) =~= Seq::new((t + 1) as nat, |j: int| stream_bit(body@, p + j)));
        }
        idx = (idx << 1) | bv;
        t += 1;
    }
    proof {
        crate::bits::lemma_word_facts(idx);
        assert(idx as int as u32 == idx);
    }
    idx
}

/// The bits of `data` coded with `codes`, one code after the other.
pub open spec fn code_stream(codes: Seq<HuffmanCode>, data: Seq<u8>) -> Seq<bool>
    decreases data.len(),
{
    if data.len() == 0 {
        seq![]
    } else {
        code_stream(codes, data.drop_last()) + code_bits(codes[data.last() as int].code, codes[data.last() as int].len as nat)
    }
}

/// Bit `t` (0 = most significant) of the byte `cur`.
pub open spec fn cur_bit(cur: u8, t: int) -> bool {
    (cur >> ((7 - t) as u8)) & 1u8 == 1u8
}

/// `out` holds the complete bytes of `bits`; `cur` holds the remaining `nb`
/// bits at its top, its other bits are zero.
pub open spec fn packed(out: Seq<u8>, cur: u8, nb: u32, bits: Seq<bool>) -> bool {
    &&& nb < 8
    &&& bits.len() == 8 * out.len() + nb
    &&& forall|i: int| 0 <= i < 8 * out.len() ==> #[trigger] stream_bit(out, i) == bits[i]
    &&& forall|t: int| 0 <= t < 8 ==> #[trigger] cur_bit(cur, t) == (t < nb && bits[8 * out.len() + t])
}

/// `out` is exactly `bits` packed into bytes, the last one padded with zeros.
pub open spec fn packs(out: Seq<u8>, bits: Seq<bool>) -> bool {
    &&& out.len() == (bits.len() + 7) / 8
    &&& forall|i: int| 0 <= i < 8 * out.len() ==> #[trigger] stream_bit(out, i) == (i < bits.len() && bits[i])
}

proof fn lemma_set_bit(cur: u8, b: u8, nb: u8, t: u8)
    by (bit_vector)
    requires
        nb < 8,
        b <= 1,
        t < 8,
    ensures
        ((cur | (b << (7 - nb) as u8)) >> ((7 - t) as u8)) & 1u8 == (if t == nb { ((cur >> ((7 - t) as u8)) & 1u8) | b } else { (cur >> ((7 - t) as u8)) & 1u8 }),
        ((cur >> ((7 - t) as u8)) & 1u8) <= 1,
        (0u8 >> ((7 - t) as u8)) & 1u8 == 0,
{
}

/// Nothing written yet.
pub proof fn lemma_packed_empty()
    ensures
        packed(seq![], 0, 0, seq![]),
{
    assert forall|t: int| 0 <= t < 8 implies #[trigger] cur_bit(0, t) == (t < 0 && Seq::<bool>::empty()[8 * 0 + t]) by {
        lemma_set_bit(0, 0, 0, t as u8);
    }
}

/// Appends one bit.
fn push_bit(out: &mut Vec<u8>, cur: &mut u8, nb: &mut u32, bit: bool, Ghost(bits): Ghost<Seq<bool>>)
    requires
        packed(old(out)@, *old(cur), *old(nb), bits),
    ensures
        packed(final(out)@, *final(cur), *final(nb), bits.push(bit)),
{
    let b: u8 = if bit { 1 } else { 0 };
    let ghost old_cur = *cur;
    let ghost L = out@.len();
    let n8 = *nb as u8;
    *cur = *cur | (b << (7 - n8));
    proof {
        assert forall|t: int| 0 <= t < 8 implies #[trigger] cur_bit(*cur, t) == (t < *nb + 1 && bits.push(bit)[8 * L + t]) by {
            let tu = t as u8;
            lemma_set_bit(old_cur, b, n8, tu);
            assert(tu as int == t);
            assert(cur_bit(*cur, t) == (((*cur >> ((7 - tu) as u8)) & 1u8) == 1u8));
            assert(cur_bit(old_cur, t) == (((old_cur >> ((7 - tu) as u8)) & 1u8) == 1u8));
            if t == *nb {
                assert(cur_bit(old_cur, t) == false);
                assert(((old_cur >> ((7 - tu) as u8)) & 1u8) == 0u8);
                crate::bits::lemma_byte_facts(b, 0);
                assert(bits.push(bit)[8 * L + t] == bit);
            } else if t < *nb {
                assert(bits.push(bit)[8 * L + t] == bits[8 * L + t]);
            }
        }
    }
    let ghost nb0 = *nb;
    *nb = *nb + 1;
    if *nb == 8 {
        let full = *cur;
        out.push(full);
        *cur = 0;
        *nb = 0;
        proof {
            let nbits = bits.push(bit);
            assert forall|i: int| 0 <= i < 8 * out@.len() implies #[trigger] stream_bit(out@, i) == nbits[i] by {
                if i < 8 * L {
                    assert(stream_bit(out@, i) == stream_bit(old(out)@, i));
                } else {
                    let t = i - 8 * L;
                    assert(i / 8 == L);
                    assert(i % 8 == t);
                    assert(out@[i / 8] == full);
                    assert(cur_bit(full, t) == (t < nb0 + 1 && nbits[8 * L + t]));
                    assert(stream_bit(out@, i) == cur_bit(full, t));
                }
            }
            assert forall|t: int| 0 <= t < 8 implies #[trigger] cur_bit(*cur, t) == (t < *nb && nbits[8 * out@.len() + t]) by {
                lemma_set_bit(0, 0, 0, t as u8);
            }
        }
    } else {
        proof {
            let nbits = bits.push(bit);
            assert forall|i: int| 0 <= i < 8 * out@.len() implies #[trigger] stream_bit(out@, i) == nbits[i] by {
                assert(stream_bit(out@, i) == bits[i]);
            }
        }
    }
}

/// Appends the low `width` bits of `value`, most significant first.
pub fn push_bits(out: &mut Vec<u8>, cur: &mut u8, nb: &mut u32, value: u32, width: u32, Ghost(bits): Ghost<Seq<bool>>)
    requires
        packed(old(out)@, *old(cur), *old(nb), bits),
        width <= 32,
    ensures
        packed(final(out)@, *final(cur), *final(nb), bits + code_bits(value, width as nat)),
{
    let mut k: u32 = 0;
    let ghost full = code_bits(value, width as nat);
    proof {
        assert(bits + full.take(0) =~= bits);
    }
    while k < width
        invariant
            k <= width,
            width <= 32,
            full == code_bits(value, width as nat),
            packed(out@, *cur, *nb, bits + full.take(k as int)),
        decreases width - k,
    {
        let bit = (value >> (width - 1 - k)) & 1 == 1;
        proof {
            assert(bit == full[k as int]);
        }
        push_bit(out, cur, nb, bit, Ghost(bits + full.take(k as int)));
        proof {
            assert((bits + full.take(k as int)).push(bit) =~= bits + full.take((k + 1) as int));
        }
        k += 1;
    }
    proof {
        assert(full.take(width as int) =~= full);
    }
}

/// Appends the `len` bits of `code`.
pub fn push_code(out: &mut Vec<u8>, cur: &mut u8, nb: &mut u32, code: HuffmanCode, Ghost(bits): Ghost<Seq<bool>>)
    requires
        packed(old(out)@, *old(cur), *old(nb), bits),
        code.len <= 32,
    ensures
        packed(final(out)@, *final(cur), *final(nb), bits + code_bits(code.code, code.len as nat)),
{
    push_bits(out, cur, nb, code.code, code.len as u32, Ghost(bits));
}

/// Completes the last byte with zero bits.
pub fn finish_bits(out: &mut Vec<u8>, cur: u8, nb: u32, Ghost(bits): Ghost<Seq<bool>>)
    requires
        packed(old(out)@, cur, nb, bits),
    ensures
        packs(final(out)@, bits),
{
    let ghost L = out@.len();
    if nb > 0 {
        out.push(cur);
        proof {
            assert forall|i: int| 0 <= i < 8 * out@.len() implies #[trigger] stream_bit(out@, i) == (i < bits.len() && bits[i]) by {
                if i < 8 * L {
                    assert(stream_bit(out@, i) == stream_bit(old(out)@, i));
                } else {
                    let t = i - 8 * L;
                    assert(i / 8 == L);
                    assert(i % 8 == t);
                    assert(out@[i / 8] == cur);
                    assert(cur_bit(cur, t) == (t < nb && bits[8 * L + t]));
                    assert(stream_bit(out@, i) == cur_bit(cur, t));
                }
            }
        }
    } else {
        proof {
            assert forall|i: int| 0 <= i < 8 * out@.len() implies #[trigger] stream_bit(out@, i) == (i < bits.len() && bits[i]) by {
                assert(stream_bit(out@, i) == bits[i]);
            }
        }
    }
}

} // verus!
