//! Code tables and the table-driven decoder lookup for the Huffman tree.
use vstd::prelude::*;
use crate::huffman_tree::{HuffmanCode, NodeOfHuffmanTree, ALPHABET_SIZE};

verus! {

pub const TABLE_BITS: u32 = 12;
pub const TABLE_SIZE: usize = 4096;

/// The low `len` bits of `code`, most significant first.
pub open spec fn code_bits(code: u32, len: nat) -> Seq<bool> {
    Seq::new(len, |j: int| (code >> ((len - 1 - j) as u32)) & 1u32 == 1u32)
}

/// The node reached from `node` by following `bits` (false = left,
/// true = right); `None` when a leaf is met before the bits end.
pub open spec fn descend(node: NodeOfHuffmanTree, bits: Seq<bool>) -> Option<NodeOfHuffmanTree>
    decreases bits.len(),
{
    if bits.len() == 0 {
        Some(node)
    } else {
        match node {
            NodeOfHuffmanTree::Leaf { .. } => None,
            NodeOfHuffmanTree::Node { left, right, .. } => descend(
                if bits[0] { *right } else { *left },
                bits.drop_first(),
            ),
        }
    }
}

/// Following `bits` from `root` ends exactly at a leaf holding `s`.
pub open spec fn leads_to_symbol(root: NodeOfHuffmanTree, bits: Seq<bool>, s: u8) -> bool {
    descend(root, bits) matches Some(NodeOfHuffmanTree::Leaf { symbol, .. }) && symbol == s
}

/// `c` is a code of at most 32 bits that leads from `root` to `s`.
pub open spec fn code_for(root: NodeOfHuffmanTree, c: HuffmanCode, s: u8) -> bool {
    c.len <= 32 && leads_to_symbol(root, code_bits(c.code, c.len as nat), s)
}

/// The path from `node` to the leaf of `s` (false = left, true = right); when
/// `s` is at several leaves, the one furthest to the right.
pub open spec fn leaf_path(node: NodeOfHuffmanTree, s: u8) -> Seq<bool>
    decreases node,
{
    match node {
        NodeOfHuffmanTree::Leaf { .. } => seq![],
        NodeOfHuffmanTree::Node { left, right, .. } => if right.has_leaf(s) {
            seq![true] + leaf_path(*right, s)
        } else {
            seq![false] + leaf_path(*left, s)
        },
    }
}

/// The path to a leaf of `s` leads there.
pub proof fn lemma_leaf_path_leads(node: NodeOfHuffmanTree, s: u8)
    requires
        node.has_leaf(s),
    ensures
        leads_to_symbol(node, leaf_path(node, s), s),
        leaf_path(node, s).len() <= node.depth(),
    decreases node,
{
    match node {
        NodeOfHuffmanTree::Leaf { .. } => {},
        NodeOfHuffmanTree::Node { left, right, .. } => {
            let p = leaf_path(node, s);
            if right.has_leaf(s) {
                lemma_leaf_path_leads(*right, s);
                assert(p.drop_first() =~= leaf_path(*right, s));
            } else {
                lemma_leaf_path_leads(*left, s);
                assert(p.drop_first() =~= leaf_path(*left, s));
            }
        },
    }
}

/// Following `p` then `r` is following `p + r`.
proof fn lemma_descend_concat(node: NodeOfHuffmanTree, p: Seq<bool>, r: Seq<bool>)
    ensures
        descend(node, p + r) == match descend(node, p) {
            Some(n) => descend(n, r),
            None => None::<NodeOfHuffmanTree>,
        },
    decreases p.len(),
{
    if p.len() == 0 {
        assert(p + r =~= r);
    } else {
        assert((p + r).drop_first() =~= p.drop_first() + r);
        assert((p + r)[0] == p[0]);
        match node {
            NodeOfHuffmanTree::Leaf { .. } => {},
            NodeOfHuffmanTree::Node { left, right, .. } => {
                lemma_descend_concat(if p[0] { *right } else { *left }, p.drop_first(), r);
            },
        }
    }
}

/// The codes are prefix-free: a path that leads to a symbol and starts
/// another path that leads to a symbol is that path, to the same symbol.
pub proof fn law_codes_prefix_free(root: NodeOfHuffmanTree, p: Seq<bool>, q: Seq<bool>, s1: u8, s2: u8)
    requires
        leads_to_symbol(root, p, s1),
        leads_to_symbol(root, q, s2),
        p.len() <= q.len(),
        q.take(p.len() as int) == p,
    ensures
        p == q,
        s1 == s2,
{
    let r = q.skip(p.len() as int);
    assert(p + r =~= q);
    lemma_descend_concat(root, p, r);
    if r.len() > 0 {
        assert(descend(root, p) matches Some(NodeOfHuffmanTree::Leaf { .. }));
        assert(false);
    }
    assert(r =~= Seq::<bool>::empty());
    assert(p =~= q);
}

pub proof fn lemma_descend_push(node: NodeOfHuffmanTree, p: Seq<bool>, b: bool)
    ensures
        descend(node, p.push(b)) == match descend(node, p) {
            Some(NodeOfHuffmanTree::Node { left, right, .. }) => Some(if b { *right } else { *left }),
            _ => None::<NodeOfHuffmanTree>,
        },
    decreases p.len(),
{
    if p.len() == 0 {
        assert(p.push(b).drop_first() =~= Seq::<bool>::empty());
        assert(p.push(b)[0] == b);
        match node {
            NodeOfHuffmanTree::Leaf { .. } => {},
            NodeOfHuffmanTree::Node { left, right, .. } => {
                assert(descend(if b { *right } else { *left }, Seq::<bool>::empty()) == Some(if b { *right } else { *left }));
            },
        }
    } else {
        assert(p.push(b).drop_first() =~= p.drop_first().push(b));
        assert(p.push(b)[0] == p[0]);
        match node {
            NodeOfHuffmanTree::Leaf { .. } => {},
            NodeOfHuffmanTree::Node { left, right, .. } => {
                lemma_descend_push(if p[0] { *right } else { *left }, p.drop_first(), b);
            },
        }
    }
}

pub proof fn lemma_code_bits_push(code: u32, len: nat, b: u32)
    requires
        len < 32,
        code < (1u32 << (len as u32)),
        b <= 1,
    ensures
        code_bits(((code << 1u32) | b) as u32, len + 1) == code_bits(code, len).push(b == 1),
        len + 1 < 32 ==> ((code << 1u32) | b) < (1u32 << ((len + 1) as u32)),
{
    let l = len as u32;
    let c2 = ((code << 1u32) | b) as u32;
    assert(l + 1 < 32 ==> c2 < (1u32 << (l + 1))) by (bit_vector)
        requires
            l < 32,
            code < (1u32 << l),
            b <= 1,
            c2 == (code << 1u32) | b,
    ;
    assert forall|j: int| 0 <= j < len + 1 implies #[trigger] code_bits(c2, len + 1)[j] == code_bits(code, len).push(b == 1)[j] by {
        if j < len {
            let sh = (len - 1 - j) as u32;
            assert(((c2 >> (sh + 1)) & 1u32) == ((code >> sh) & 1u32)) by (bit_vector)
                requires
                    sh < 31,
                    c2 == (code << 1u32) | b,
                    b <= 1,
                    sh < l,
            ;
            assert((len + 1 - 1 - j) as u32 == sh + 1);
        } else {
            assert(((c2 >> 0u32) & 1u32 == 1u32) == (b == 1)) by (bit_vector)
                requires
                    c2 == (code << 1u32) | b,
                    b <= 1,
            ;
        }
    }
    assert(code_bits(c2, len + 1) =~= code_bits(code, len).push(b == 1));
}

/// `node.depth() <= limit`.
pub fn depth_at_most(node: &NodeOfHuffmanTree, limit: u32) -> (r: bool)
    ensures
        r == (node.depth() <= limit),
    decreases node,
{
    match node {
        NodeOfHuffmanTree::Leaf { .. } => true,
        NodeOfHuffmanTree::Node { left, right, .. } => {
            if limit == 0 {
                false
            } else {
                depth_at_most(left, limit - 1) && depth_at_most(right, limit - 1)
            }
        },
    }
}

fn assign_codes(
    node: &NodeOfHuffmanTree,
    code: u32,
    len: u8,
    codes: &mut Vec<HuffmanCode>,
    Ghost(root): Ghost<NodeOfHuffmanTree>,
)
    requires
        old(codes)@.len() == ALPHABET_SIZE,
        len + node.depth() <= 32,
        len < 32 ==> code < (1u32 << (len as u32)),
        descend(root, code_bits(code, len as nat)) == Some(*node),
    ensures
        final(codes)@.len() == ALPHABET_SIZE,
        forall|s: u8| #[trigger] node.has_leaf(s) ==> code_for(root, final(codes)@[s as int], s),
        forall|s: u8| #[trigger] node.has_leaf(s) ==> code_bits(final(codes)@[s as int].code, final(codes)@[s as int].len as nat)
            == code_bits(code, len as nat) + leaf_path(*node, s),
        forall|s: u8| !#[trigger] node.has_leaf(s) ==> final(codes)@[s as int] == old(codes)@[s as int],
    decreases node,
{
    match node {
        NodeOfHuffmanTree::Leaf { symbol, .. } => {
            codes.set(*symbol as usize, HuffmanCode { code, len });
            proof {
                assert forall|s: u8| #[trigger] node.has_leaf(s) implies code_for(root, codes@[s as int], s) by {
                    assert(s == *symbol);
                    assert(codes@[s as int] == HuffmanCode { code, len });
                }
                assert forall|s: u8| #[trigger] node.has_leaf(s) implies code_bits(codes@[s as int].code, codes@[s as int].len as nat)
                    == code_bits(code, len as nat) + leaf_path(*node, s) by {
                    assert(codes@[s as int] == HuffmanCode { code, len });
                    assert(code_bits(code, len as nat) + leaf_path(*node, s) =~= code_bits(code, len as nat));
                }
                assert forall|s: u8| !#[trigger] node.has_leaf(s) implies codes@[s as int] == old(codes)@[s as int] by {
                    assert(s != *symbol);
                }
                assert(codes@.len() == ALPHABET_SIZE);
                assert(forall|s: u8| #[trigger] node.has_leaf(s) ==> code_for(root, final(codes)@[s as int], s));
            }
        },
        NodeOfHuffmanTree::Node { left, right, .. } => {
            proof {
                lemma_code_bits_push(code, len as nat, 0);
                lemma_code_bits_push(code, len as nat, 1);
                lemma_descend_push(root, code_bits(code, len as nat), false);
                lemma_descend_push(root, code_bits(code, len as nat), true);
                crate::bits::lemma_word_facts(code);
            }
            let ghost c0 = codes@;
            assign_codes(left, code << 1, len + 1, codes, Ghost(root));
            let ghost c1 = codes@;
            assign_codes(right, (code << 1) | 1, len + 1, codes, Ghost(root));
            proof {
                assert forall|s: u8| #[trigger] node.has_leaf(s) implies code_for(root, codes@[s as int], s) by {
                    if right.has_leaf(s) {
                    } else {
                        assert(left.has_leaf(s));
                        assert(codes@[s as int] == c1[s as int]);
                    }
                }
                assert forall|s: u8| #[trigger] node.has_leaf(s) implies code_bits(codes@[s as int].code, codes@[s as int].len as nat)
                    == code_bits(code, len as nat) + leaf_path(*node, s) by {
                    assert(leaf_path(*node, s) == if right.has_leaf(s) {
                        seq![true] + leaf_path(**right, s)
                    } else {
                        seq![false] + leaf_path(**left, s)
                    });
                    if right.has_leaf(s) {
                        assert(code_bits(((code << 1u32) | 1u32) as u32, (len + 1) as nat) == code_bits(code, len as nat).push(true));
                        assert(code_bits(codes@[s as int].code, codes@[s as int].len as nat)
                            == code_bits(((code << 1u32) | 1u32) as u32, (len + 1) as nat) + leaf_path(**right, s));
                        assert(code_bits(code, len as nat).push(true) + leaf_path(**right, s)
                            =~= code_bits(code, len as nat) + (seq![true] + leaf_path(**right, s)));
                    } else {
                        assert(left.has_leaf(s));
                        assert(codes@[s as int] == c1[s as int]);
                        assert(code_bits(((code << 1u32) | 0u32) as u32, (len + 1) as nat) == code_bits(code, len as nat).push(false));
                        assert(code_bits(c1[s as int].code, c1[s as int].len as nat)
                            == code_bits((code << 1u32) as u32, (len + 1) as nat) + leaf_path(**left, s));
                        assert(code_bits(code, len as nat).push(false) + leaf_path(**left, s)
                            =~= code_bits(code, len as nat) + (seq![false] + leaf_path(**left, s)));
                    }
                }
                assert forall|s: u8| !#[trigger] node.has_leaf(s) implies codes@[s as int] == c0[s as int] by {
                    assert(!left.has_leaf(s) && !right.has_leaf(s));
                    assert(codes@[s as int] == c1[s as int]);
                }
            }
        },
    }
}

/// The code of every symbol of the tree: the path from the root to its leaf.
/// Symbols that are not in the tree get the empty code.
pub fn create_huffman_codes(root: &NodeOfHuffmanTree) -> (r: Vec<HuffmanCode>)
    requires
        root.depth() <= 32,
    ensures
        r@.len() == ALPHABET_SIZE,
        forall|s: u8| #[trigger] root.has_leaf(s) ==> code_for(*root, r@[s as int], s),
        forall|s: u8| #[trigger] root.has_leaf(s) ==> code_bits(r@[s as int].code, r@[s as int].len as nat) == leaf_path(*root, s),
        forall|s: u8| !#[trigger] root.has_leaf(s) ==> r@[s as int].code == 0 && r@[s as int].len == 0,
{
    let mut codes: Vec<HuffmanCode> = Vec::new();
    let mut i: usize = 0;
    while i < ALPHABET_SIZE
        invariant
            i <= ALPHABET_SIZE,
            codes@.len() == i,
            forall|j: int| 0 <= j < i ==> #[trigger] codes@[j].code == 0 && codes@[j].len == 0,
        decreases ALPHABET_SIZE - i,
    {
        codes.push(HuffmanCode { code: 0, len: 0 });
        i += 1;
    }
    proof {
        crate::bits::lemma_word_facts(0);
        assert(code_bits(0, 0) =~= Seq::<bool>::empty());
    }
    assign_codes(root, 0, 0, &mut codes, Ghost(*root));
    proof {
        assert forall|s: u8| #[trigger] root.has_leaf(s) implies code_bits(codes@[s as int].code, codes@[s as int].len as nat) == leaf_path(*root, s) by {
            assert(code_bits(0, 0) + leaf_path(*root, s) =~= leaf_path(*root, s));
        }
    }
    codes
}

/// An entry of the decoding table.
#[derive(Debug, Clone, Copy)]
pub enum DecodeEntry {
    /// The 12-bit window starts with the code (of `code_len` bits) of `symbol`.
    Symbol { symbol: u8, code_len: u8 },
    /// The code is longer than the table: decode by walking the tree.
    Escape,
}

/// The 12 bits of the table index, most significant first.
pub open spec fn index_bits(idx: int) -> Seq<bool> {
    code_bits(idx as u32, 12)
}

/// A table entry is correct for index `idx`: either it sends the decoder to
/// the tree, or the first `code_len` bits of `idx` are the code of `symbol`.
pub open spec fn entry_sound(root: NodeOfHuffmanTree, e: DecodeEntry, idx: int) -> bool {
    match e {
        DecodeEntry::Escape => true,
        DecodeEntry::Symbol { symbol, code_len } => 1 <= code_len <= 12 && leads_to_symbol(
            root,
            index_bits(idx).take(code_len as int),
            symbol,
        ),
    }
}

proof fn lemma_block_prefix(code: u32, len: u32, i: u32)
    requires
        1 <= len <= 12,
        code < (1u32 << len),
        i < (1u32 << (12 - len)),
    ensures
        ((code << (12 - len)) + i) < 4096,
        index_bits(((code << (12 - len)) + i) as int).take(len as int) == code_bits(code, len as nat),
{
    let sh = (12 - len) as u32;
    let idx = ((code << sh) + i) as u32;
    assert((code << sh) + i < 4096 && (code << sh) + i == (((code << sh) + i) as u32)) by (bit_vector)
        requires
            1 <= len <= 12,
            code < (1u32 << len),
            i < (1u32 << sh),
            sh == 12 - len,
    ;
    assert forall|j: int| 0 <= j < len implies #[trigger] index_bits(idx as int).take(len as int)[j] == code_bits(code, len as nat)[j] by {
        let jj = j as u32;
        let a = (11 - jj) as u32;
        let c = (len - 1 - jj) as u32;
        assert(((idx >> a) & 1u32) == ((code >> c) & 1u32)) by (bit_vector)
            requires
                1 <= len <= 12,
                code < (1u32 << len),
                i < (1u32 << sh),
                sh + len == 12,
                idx == (code << sh) + i,
                jj < len,
                a + jj == 11,
                c + jj + 1 == len,
        ;
    }
    assert(index_bits(idx as int).take(len as int) =~= code_bits(code, len as nat));
}

/// The entry for index `idx` when the walk from `node` has read `d` bits of
/// it: the symbol of the leaf that the bits lead to within 12 bits, else `Escape`.
pub open spec fn entry_for(node: NodeOfHuffmanTree, idx: int, d: nat) -> DecodeEntry
    decreases node,
{
    match node {
        NodeOfHuffmanTree::Leaf { symbol, .. } => if d >= 1 {
            DecodeEntry::Symbol { symbol, code_len: d as u8 }
        } else {
            DecodeEntry::Escape
        },
        NodeOfHuffmanTree::Node { left, right, .. } => if d < 12 {
            entry_for(if index_bits(idx)[d as int] { *right } else { *left }, idx, d + 1)
        } else {
            DecodeEntry::Escape
        },
    }
}

/// The first `len` of the 12 bits of `idx` are the code `code`.
pub open spec fn in_block(idx: int, code: u32, len: u32) -> bool {
    (idx as u32) >> ((12 - len) as u32) == code
}

/// The indexes that begin with a code form a range, which the next bit splits in two.
proof fn lemma_block_bits(idx: u32, code: u32, len: u32)
    by (bit_vector)
    requires
        idx < 4096,
        len <= 12,
        code < (1u32 << len),
    ensures
        (idx >> ((12 - len) as u32)) == code <==> ((code << ((12 - len) as u32)) <= idx && idx < (code << ((12
            - len) as u32)) + (1u32 << ((12 - len) as u32))),
        len < 12 ==> ((idx >> ((11 - len) as u32)) == (code << 1u32) <==> ((idx >> ((12 - len) as u32)) == code
            && (idx >> ((11 - len) as u32)) & 1u32 == 0u32)),
        len < 12 ==> ((idx >> ((11 - len) as u32)) == ((code << 1u32) | 1u32) <==> ((idx >> ((12 - len) as u32))
            == code && (idx >> ((11 - len) as u32)) & 1u32 == 1u32)),
        idx >> 12u32 == 0u32,
        len < 12 ==> (idx >> ((11 - len) as u32)) & 1u32 == 0u32 || (idx >> ((11 - len) as u32)) & 1u32 == 1u32,
{
}

fn fill_table(
    node: &NodeOfHuffmanTree,
    code: u32,
    code_len: u32,
    table: &mut Vec<DecodeEntry>,
    Ghost(root): Ghost<NodeOfHuffmanTree>,
)
    requires
        old(table)@.len() == TABLE_SIZE,
        code_len <= 12,
        code < (1u32 << code_len),
        descend(root, code_bits(code, code_len as nat)) == Some(*node),
        forall|idx: int| 0 <= idx < TABLE_SIZE ==> #[trigger] entry_sound(root, old(table)@[idx], idx),
        forall|idx: int| 0 <= idx < TABLE_SIZE && in_block(idx, code, code_len) ==> #[trigger] old(table)@[idx]
            == DecodeEntry::Escape,
    ensures
        final(table)@.len() == TABLE_SIZE,
        forall|idx: int| 0 <= idx < TABLE_SIZE ==> #[trigger] entry_sound(root, final(table)@[idx], idx),
        forall|idx: int| 0 <= idx < TABLE_SIZE ==> #[trigger] final(table)@[idx] == if in_block(idx, code, code_len) {
            entry_for(*node, idx, code_len as nat)
        } else {
            old(table)@[idx]
        },
    decreases node,
{
    match node {
        NodeOfHuffmanTree::Leaf { symbol, .. } => {
            if code_len >= 1 {
                let shift = TABLE_BITS - code_len;
                let base = code << shift;
                let count: u32 = 1u32 << shift;
                let mut i: u32 = 0;
                while i < count
                    invariant
                        table@.len() == TABLE_SIZE,
                        1 <= code_len <= 12,
                        shift == 12 - code_len,
                        base == code << shift,
                        count == 1u32 << shift,
                        code < (1u32 << code_len),
                        descend(root, code_bits(code, code_len as nat)) == Some(*node),
                        *node == (NodeOfHuffmanTree::Leaf { symbol: *symbol, freq: node.spec_freq() }),
                        forall|idx: int| 0 <= idx < TABLE_SIZE ==> #[trigger] entry_sound(root, table@[idx], idx),
                        i <= count,
                        forall|idx: int| 0 <= idx < TABLE_SIZE ==> #[trigger] table@[idx] == if base <= idx < base + i {
                            DecodeEntry::Symbol { symbol: *symbol, code_len: code_len as u8 }
                        } else {
                            old(table)@[idx]
                        },
                    decreases count - i,
                {
                    proof {
                        lemma_block_prefix(code, code_len, i);
                    }
                    let at = (base + i) as usize;
                    table.set(at, DecodeEntry::Symbol { symbol: *symbol, code_len: code_len as u8 });
                    proof {
                        assert(entry_sound(root, table@[at as int], at as int));
                    }
                    i += 1;
                }
                proof {
                    assert forall|idx: int| 0 <= idx < TABLE_SIZE implies #[trigger] table@[idx] == if in_block(
                        idx,
                        code,
                        code_len,
                    ) {
                        entry_for(*node, idx, code_len as nat)
                    } else {
                        old(table)@[idx]
                    } by {
                        lemma_block_bits(idx as u32, code, code_len);
                        assert(idx as u32 as int == idx);
                    }
                }
            }
        },
        NodeOfHuffmanTree::Node { left, right, .. } => {
            if code_len < TABLE_BITS {
                proof {
                    lemma_code_bits_push(code, code_len as nat, 0);
                    lemma_code_bits_push(code, code_len as nat, 1);
                    lemma_descend_push(root, code_bits(code, code_len as nat), false);
                    lemma_descend_push(root, code_bits(code, code_len as nat), true);
                    crate::bits::lemma_word_facts(code);
                }
                let ghost t0 = table@;
                proof {
                    assert forall|idx: int| 0 <= idx < TABLE_SIZE && in_block(idx, code << 1, (code_len + 1) as u32) implies #[trigger] t0[idx]
                        == DecodeEntry::Escape by {
                        lemma_block_bits(idx as u32, code, code_len);
                    }
                }
                fill_table(left, code << 1, code_len + 1, table, Ghost(root));
                let ghost t1 = table@;
                proof {
                    assert forall|idx: int| 0 <= idx < TABLE_SIZE && in_block(idx, (code << 1) | 1, (code_len + 1) as u32) implies #[trigger] t1[idx]
                        == DecodeEntry::Escape by {
                        lemma_block_bits(idx as u32, code, code_len);
                    }
                }
                fill_table(right, (code << 1) | 1, code_len + 1, table, Ghost(root));
                proof {
                    assert forall|idx: int| 0 <= idx < TABLE_SIZE implies #[trigger] table@[idx] == if in_block(
                        idx,
                        code,
                        code_len,
                    ) {
                        entry_for(*node, idx, code_len as nat)
                    } else {
                        t0[idx]
                    } by {
                        lemma_block_bits(idx as u32, code, code_len);
                        assert(t1[idx] == if in_block(idx, code << 1, (code_len + 1) as u32) {
                            entry_for(**left, idx, (code_len + 1) as nat)
                        } else {
                            t0[idx]
                        });
                        let bit = index_bits(idx)[code_len as int];
                        assert(bit == (((idx as u32) >> ((11 - code_len) as u32)) & 1u32 == 1u32));
                        if in_block(idx, code, code_len) {
                            assert(entry_for(*node, idx, code_len as nat) == entry_for(
                                if bit { **right } else { **left },
                                idx,
                                (code_len + 1) as nat,
                            ));
                            if bit {
                                assert(in_block(idx, (code << 1) | 1, (code_len + 1) as u32));
                            } else {
                                assert(in_block(idx, code << 1, (code_len + 1) as u32));
                                assert(!in_block(idx, (code << 1) | 1, (code_len + 1) as u32));
                            }
                        } else {
                            assert(!in_block(idx, code << 1, (code_len + 1) as u32));
                            assert(!in_block(idx, (code << 1) | 1, (code_len + 1) as u32));
                        }
                    }
                }
            }
        },
    }
}

/// Following the bits of `idx` from position `d` to `len` ends at the leaf of
/// `s` exactly when the entry read from `node` after `d` bits is `s` with a
/// code of `len` bits.
proof fn lemma_entry_for_path(node: NodeOfHuffmanTree, idx: int, d: nat, len: nat, s: u8)
    requires
        d <= len <= 12,
        len >= 1,
    ensures
        (descend(node, index_bits(idx).subrange(d as int, len as int)) matches Some(NodeOfHuffmanTree::Leaf { symbol, .. })
            && symbol == s) <==> entry_for(node, idx, d) == (DecodeEntry::Symbol { symbol: s, code_len: len as u8 }),
    decreases node,
{
    let bits = index_bits(idx).subrange(d as int, len as int);
    match node {
        NodeOfHuffmanTree::Leaf { symbol, .. } => {
            if d < len {
                assert(bits.len() > 0);
            } else {
                assert(bits.len() == 0);
            }
            if d >= 1 && entry_for(node, idx, d) == (DecodeEntry::Symbol { symbol: s, code_len: len as u8 }) {
                assert(d as u8 == len as u8);
                assert(d == len);
            }
        },
        NodeOfHuffmanTree::Node { left, right, .. } => {
            if d < len {
                assert(bits.len() > 0);
                let child = if index_bits(idx)[d as int] { *right } else { *left };
                assert(bits.drop_first() =~= index_bits(idx).subrange(d + 1int, len as int));
                assert(bits[0] == index_bits(idx)[d as int]);
                lemma_entry_for_path(child, idx, d + 1, len, s);
            } else {
                assert(bits.len() == 0);
                lemma_entry_for_not_short(node, idx, d, s, len);
            }
        },
    }
}

/// From a node that is not a leaf, the entry never has a code as short as
/// the bits read so far.
proof fn lemma_entry_for_not_short(node: NodeOfHuffmanTree, idx: int, d: nat, s: u8, len: nat)
    requires
        node is Node,
        len <= d,
    ensures
        entry_for(node, idx, d) != (DecodeEntry::Symbol { symbol: s, code_len: len as u8 }),
    decreases node,
{
    match node {
        NodeOfHuffmanTree::Node { left, right, .. } => {
            if d < 12 {
                let child = if index_bits(idx)[d as int] { *right } else { *left };
                lemma_entry_for_deeper(child, idx, d + 1, s, len);
            }
        },
        _ => {},
    }
}

/// An entry read after `d` bits, if a symbol, has a code longer than `d - 1`
/// bits and at most 12.
proof fn lemma_entry_for_deeper(node: NodeOfHuffmanTree, idx: int, d: nat, s: u8, len: nat)
    requires
        len < d,
        d <= 12,
    ensures
        entry_for(node, idx, d) != (DecodeEntry::Symbol { symbol: s, code_len: len as u8 }),
    decreases node,
{
    match node {
        NodeOfHuffmanTree::Leaf { .. } => {},
        NodeOfHuffmanTree::Node { left, right, .. } => {
            if d < 12 {
                let child = if index_bits(idx)[d as int] { *right } else { *left };
                lemma_entry_for_deeper(child, idx, d + 1, s, len);
            }
        },
    }
}

/// The table's prefix law: entry `idx` is the symbol `s` with a code of
/// `len` bits (1 to 12) exactly when the first `len` bits of `idx` lead from
/// the root to the leaf of `s`; an index whose first 12 bits reach no leaf
/// gets `Escape`.
pub proof fn law_decode_table_prefix(tree: NodeOfHuffmanTree, idx: int, s: u8, len: nat)
    requires
        0 <= idx < 4096,
        1 <= len <= 12,
    ensures
        leads_to_symbol(tree, index_bits(idx).take(len as int), s) <==> entry_for(tree, idx, 0) == (DecodeEntry::Symbol {
            symbol: s,
            code_len: len as u8,
        }),
{
    assert(index_bits(idx).subrange(0, len as int) =~= index_bits(idx).take(len as int));
    lemma_entry_for_path(tree, idx, 0, len, s);
}

/// An entry is a symbol with a code length of 1 to 12 bits, or an escape.
proof fn lemma_entry_for_shape(node: NodeOfHuffmanTree, idx: int, d: nat)
    requires
        d <= 12,
    ensures
        entry_for(node, idx, d) is Escape || (entry_for(node, idx, d) matches DecodeEntry::Symbol { code_len, .. }
            && 1 <= code_len <= 12),
    decreases node,
{
    match node {
        NodeOfHuffmanTree::Leaf { .. } => {},
        NodeOfHuffmanTree::Node { left, right, .. } => {
            if d < 12 {
                lemma_entry_for_shape(if index_bits(idx)[d as int] { *right } else { *left }, idx, d + 1);
            }
        },
    }
}

/// The table's entry at `idx` is an escape exactly when no prefix of 1 to
/// 12 of its bits leads from the root to a symbol.
pub proof fn law_decode_table_escape(tree: NodeOfHuffmanTree, idx: int)
    requires
        0 <= idx < 4096,
    ensures
        entry_for(tree, idx, 0) is Escape <==> !exists|len: nat, s: u8|
            1 <= len <= 12 && #[trigger] leads_to_symbol(tree, index_bits(idx).take(len as int), s),
{
    lemma_entry_for_shape(tree, idx, 0);
    if exists|len: nat, s: u8| 1 <= len <= 12 && #[trigger] leads_to_symbol(tree, index_bits(idx).take(len as int), s) {
        let (len, s) = choose|len: nat, s: u8|
            1 <= len <= 12 && #[trigger] leads_to_symbol(tree, index_bits(idx).take(len as int), s);
        law_decode_table_prefix(tree, idx, s, len);
    }
    match entry_for(tree, idx, 0) {
        DecodeEntry::Symbol { symbol, code_len } => {
            law_decode_table_prefix(tree, idx, symbol, code_len as nat);
            assert(leads_to_symbol(tree, index_bits(idx).take(code_len as nat as int), symbol));
        },
        DecodeEntry::Escape => {},
    }
}

/// The table in the form of the code table: for every symbol whose code
/// (as `create_huffman_codes` gives it) is 1 to 12 bits long, every index
/// that begins with that code holds the symbol and the code's length.
pub proof fn law_decode_table_codes(tree: NodeOfHuffmanTree, s: u8, c: HuffmanCode, idx: int)
    requires
        tree.has_leaf(s),
        code_bits(c.code, c.len as nat) == leaf_path(tree, s),
        1 <= c.len <= 12,
        c.code < (1u32 << c.len),
        0 <= idx < 4096,
        in_block(idx, c.code, c.len as u32),
    ensures
        entry_for(tree, idx, 0) == (DecodeEntry::Symbol { symbol: s, code_len: c.len }),
{
    let len = c.len as u32;
    lemma_block_bits(idx as u32, c.code, len);
    let shift = (12 - len) as u32;
    let base = c.code << shift;
    assert(idx as u32 as int == idx);
    let i = (idx - base) as u32;
    lemma_block_prefix(c.code, len, i);
    assert((base + i) as int == idx);
    lemma_leaf_path_leads(tree, s);
    law_decode_table_prefix(tree, idx, s, c.len as nat);
}

/// The decoding table of the tree: entry `idx` is the symbol whose code, of 1
/// to 12 bits, begins the 12-bit index, and `Escape` where no code does.
pub fn build_decode_table(tree: &NodeOfHuffmanTree) -> (r: Vec<DecodeEntry>)
    ensures
        r@.len() == TABLE_SIZE,
        forall|idx: int| 0 <= idx < TABLE_SIZE ==> #[trigger] entry_sound(*tree, r@[idx], idx),
        forall|idx: int| 0 <= idx < TABLE_SIZE ==> #[trigger] r@[idx] == entry_for(*tree, idx, 0),
{
    let mut table: Vec<DecodeEntry> = Vec::new();
    let mut i: usize = 0;
    while i < TABLE_SIZE
        invariant
            i <= TABLE_SIZE,
            table@.len() == i,
            forall|j: int| 0 <= j < i ==> #[trigger] table@[j] == DecodeEntry::Escape,
        decreases TABLE_SIZE - i,
    {
        table.push(DecodeEntry::Escape);
        i += 1;
    }
    proof {
        crate::bits::lemma_word_facts(0);
        assert(code_bits(0, 0) =~= Seq::<bool>::empty());
    }
    proof {
        assert forall|idx: int| 0 <= idx < TABLE_SIZE implies #[trigger] in_block(idx, 0, 0) by {
            lemma_block_bits(idx as u32, 0, 0);
        }
    }
    fill_table(tree, 0, 0, &mut table, Ghost(*tree));
    table
}

} // verus!
