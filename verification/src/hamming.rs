//! Extended (SECDED) Hamming code: a perfect Hamming code over
//! `data_bits + parity_bits` positions plus one overall parity bit.
//!
//! Inside a block the positions 1, 2, 4, 8, ... (1-based) hold the Hamming
//! parity bits, all other positions up to `n = data_bits + parity_bits` hold
//! the data bits in order, and bit `n` (0-based) holds the overall parity.
use vstd::prelude::*;
use crate::error::{AppError, msg};

verus! {

/// A Hamming code with `data_bits` data bits and `parity_bits` check bits
/// per block.
pub struct HammingCode {
    pub data_bits: u32,
    pub parity_bits: u32,
}

/// Parity (0 or 1) of the number of set bits of `x`.
pub open spec fn parity(x: u32) -> u32 {
    let a = x ^ (x >> 16u32);
    let b = a ^ (a >> 8u32);
    let c = b ^ (b >> 4u32);
    let d = c ^ (c >> 2u32);
    let e = d ^ (d >> 1u32);
    e & 1u32
}

/// Parity of the number of set bits of `x`.
pub fn parity_of(x: u32) -> (r: u32)
    ensures
        r == parity(x),
        r <= 1,
{
    let a = x ^ (x >> 16u32);
    let b = a ^ (a >> 8u32);
    let c = b ^ (b >> 4u32);
    let d = c ^ (c >> 2u32);
    let e = d ^ (d >> 1u32);
    proof {
        bv_small_facts(e, 0, 0);
    }
    e & 1u32
}

proof fn lemma_parity_bit(x: u32)
    ensures
        parity(x) <= 1,
{
    bv_small_facts(x, 0, 0);
}

/// `x` is a power of two.
pub open spec fn spec_is_power_of_two(x: usize) -> bool {
    x != 0 && (x & ((x - 1) as usize)) == 0
}

pub fn is_power_of_two(x: usize) -> (r: bool)
    ensures
        r == spec_is_power_of_two(x),
{
    x != 0 && (x & (x - 1)) == 0
}

/// 0-based positions of the data bits among the positions `1..=p`.
pub open spec fn data_positions_upto(p: nat) -> Seq<usize>
    decreases p,
{
    if p == 0 {
        seq![]
    } else if spec_is_power_of_two(p as usize) {
        data_positions_upto((p - 1) as nat)
    } else {
        data_positions_upto((p - 1) as nat).push((p - 1) as usize)
    }
}

/// Mask of the positions among `1..=p` whose number has bit `i` set
/// (position `q` is bit `q - 1` of the mask).
pub open spec fn mask_upto(i: nat, p: nat) -> u32
    decreases p,
{
    if p == 0 {
        0
    } else {
        let prev = mask_upto(i, (p - 1) as nat);
        if ((p as usize) >> (i as usize)) & 1 != 0 {
            prev | (1u32 << ((p - 1) as u32))
        } else {
            prev
        }
    }
}

/// The masks of the `m` parity checks over `n` positions.
pub open spec fn masks_of(m: nat, n: nat) -> Seq<u32> {
    Seq::new(m, |i: int| mask_upto(i as nat, n))
}

/// `(k, m, n)` describe a perfect Hamming code whose extended block fits in
/// 32 bits.
pub open spec fn perfect_dims(k: nat, m: nat, n: nat) -> bool {
    1 <= m && n == k + m && n + 1 <= 32 && n + 1 == (1usize << (m as usize))
}

/// Tables precomputed for one `(k, m, n)`.
pub struct HammingTables {
    pub k: usize,
    pub m: usize,
    pub n: usize,
    /// `full_masks[i]`: the positions `1..=n` whose number has bit `i` set.
    pub full_masks: Vec<u32>,
    /// 0-based positions (within the `n`-bit word) of the data bits, in order.
    pub data_positions: Vec<usize>,
}

impl HammingTables {
    pub open spec fn wf(&self) -> bool {
        &&& perfect_dims(self.k as nat, self.m as nat, self.n as nat)
        &&& self.full_masks@ == masks_of(self.m as nat, self.n as nat)
        &&& self.data_positions@ == data_positions_upto(self.n as nat)
        &&& self.data_positions@.len() == self.k
        &&& forall|j: int| 0 <= j < self.k ==> #[trigger] self.data_positions@[j] < self.n
    }
}

/// The perfect codes have 2^m - 1 positions; m is at most 5 here.
pub proof fn lemma_perfect_dims_cases(k: nat, m: nat, n: nat)
    requires
        perfect_dims(k, m, n),
    ensures
        (m == 1 && n == 1) || (m == 2 && n == 3) || (m == 3 && n == 7) || (m == 4 && n == 15)
            || (m == 5 && n == 31),
{
    let mu = m as usize;
    let nu = n as usize;
    assert(mu >= 1 && nu + 1 <= 32 && nu + 1 == (1usize << mu) ==> ((mu == 1 && nu == 1) || (
    mu == 2 && nu == 3) || (mu == 3 && nu == 7) || (mu == 4 && nu == 15) || (mu == 5 && nu
        == 31))) by (bit_vector);
}

/// For the positions that fit a 32-bit block, the powers of two are 1, 2, 4, 8, 16.
proof fn lemma_power_of_two_small(p: usize)
    requires
        p <= 31,
    ensures
        spec_is_power_of_two(p) == (p == 1 || p == 2 || p == 4 || p == 8 || p == 16),
{
    assert(p <= 31 ==> ((p != 0 && (p & ((p - 1) as usize)) == 0) == (p == 1 || p == 2 || p == 4
        || p == 8 || p == 16))) by (bit_vector);
}

/// How many of 1, 2, 4, 8, 16 are at most `p`.
pub open spec fn powers_of_two_upto(p: nat) -> nat {
    (if p >= 1 { 1nat } else { 0nat }) + (if p >= 2 { 1nat } else { 0nat }) + (if p >= 4 { 1nat } else { 0nat })
        + (if p >= 8 { 1nat } else { 0nat }) + (if p >= 16 { 1nat } else { 0nat })
}

proof fn lemma_data_positions_len(p: nat)
    requires
        p <= 31,
    ensures
        data_positions_upto(p).len() + powers_of_two_upto(p) == p,
    decreases p,
{
    if p > 0 {
        lemma_data_positions_len((p - 1) as nat);
        lemma_power_of_two_small(p as usize);
    }
}

proof fn lemma_data_positions_bound(p: nat)
    ensures
        forall|j: int| 0 <= j < data_positions_upto(p).len() ==> #[trigger] data_positions_upto(p)[j] < p,
    decreases p,
{
    if p > 0 {
        lemma_data_positions_bound((p - 1) as nat);
        let prev = data_positions_upto((p - 1) as nat);
        if spec_is_power_of_two(p as usize) {
            assert(data_positions_upto(p) == prev);
        } else {
            assert(data_positions_upto(p) == prev.push((p - 1) as usize));
        }
    }
}

impl HammingTables {
    pub fn build(k: usize, m: usize, n: usize) -> (r: HammingTables)
        requires
            perfect_dims(k as nat, m as nat, n as nat),
        ensures
            r.wf(),
            r.k == k && r.m == m && r.n == n,
    {
        proof {
            lemma_perfect_dims_cases(k as nat, m as nat, n as nat);
            lemma_data_positions_len(n as nat);
            lemma_data_positions_bound(n as nat);
        }
        let mut data_positions: Vec<usize> = Vec::new();
        let mut pos: usize = 1;
        while pos <= n
            invariant
                1 <= pos <= n + 1,
                n <= 31,
                data_positions@ == data_positions_upto((pos - 1) as nat),
            decreases n + 1 - pos,
        {
            if !is_power_of_two(pos) {
                data_positions.push(pos - 1);
            }
            pos += 1;
        }
        let mut full_masks: Vec<u32> = Vec::new();
        let mut i: usize = 0;
        while i < m
            invariant
                i <= m,
                m <= 5,
                n <= 31,
                full_masks@ == masks_of(i as nat, n as nat),
            decreases m - i,
        {
            let mut mask: u32 = 0;
            let mut p: usize = 1;
            while p <= n
                invariant
                    1 <= p <= n + 1,
                    n <= 31,
                    i < 5,
                    mask == mask_upto(i as nat, (p - 1) as nat),
                decreases n + 1 - p,
            {
                if (p >> i) & 1 != 0 {
                    mask = mask | (1u32 << ((p - 1) as u32));
                }
                p += 1;
            }
            full_masks.push(mask);
            proof {
                assert(full_masks@ =~= masks_of((i + 1) as nat, n as nat));
            }
            i += 1;
        }
        HammingTables { k, m, n, full_masks, data_positions }
    }
}

// ------------------------------------------------------------------
// Block encoding and decoding, stated over the tables.
// ------------------------------------------------------------------

/// The data bits of `data` (its low `k` bits, most significant first) spread
/// into the first `i` data positions.
pub open spec fn spread(positions: Seq<usize>, k: nat, data: u32, i: nat) -> u32
    decreases i,
{
    if i == 0 {
        0
    } else {
        spread(positions, k, data, (i - 1) as nat) | (((data >> ((k - 1 - (i - 1)) as u32)) & 1u32)
            << (positions[i - 1] as u32))
    }
}

/// `cw` with the first `i` Hamming parity bits filled in, in order.
pub open spec fn with_parity(masks: Seq<u32>, cw: u32, i: nat) -> u32
    decreases i,
{
    if i == 0 {
        cw
    } else {
        let c = with_parity(masks, cw, (i - 1) as nat);
        c | (parity(c & masks[i - 1]) << (((1usize << ((i - 1) as usize)) - 1) as u32))
    }
}

/// The extended codeword of the low `k` bits of `data`.
pub open spec fn encode_spec(t: HammingTables, data: u32) -> u32 {
    let c = with_parity(
        t.full_masks@,
        spread(t.data_positions@, t.k as nat, data, t.k as nat),
        t.m as nat,
    );
    c | (parity(c) << (t.n as u32))
}

/// The extended codeword of the low `k` bits of `d` for the code with `k`
/// data bits and `m` check bits.
pub open spec fn block_encode(k: nat, m: nat, d: u32) -> u32 {
    let n = k + m;
    let c = with_parity(masks_of(m, n), spread(data_positions_upto(n), k, d, k), m);
    c | (parity(c) << (n as u32))
}

/// Encodes the low `k` bits of `data` into an `n + 1`-bit block.
pub fn encode_block(tables: &HammingTables, data: u32) -> (r: u32)
    requires
        tables.wf(),
    ensures
        r == encode_spec(*tables, data),
{
    let ghost t = *tables;
    let k = tables.k;
    let mut codeword: u32 = 0;
    let mut i: usize = 0;
    while i < k
        invariant
            tables.wf(),
            t == *tables,
            k == tables.k,
            i <= k,
            codeword == spread(tables.data_positions@, k as nat, data, i as nat),
        decreases k - i,
    {
        let bit_pos = tables.data_positions[i];
        let bit = (data >> ((k - 1 - i) as u32)) & 1;
        codeword = codeword | (bit << (bit_pos as u32));
        i += 1;
    }
    let ghost spread_cw = codeword;
    proof {
        lemma_perfect_dims_cases(tables.k as nat, tables.m as nat, tables.n as nat);
    }
    let mut j: usize = 0;
    while j < tables.m
        invariant
            tables.wf(),
            tables.m <= 5,
            j <= tables.m,
            codeword == with_parity(tables.full_masks@, spread_cw, j as nat),
        decreases tables.m - j,
    {
        let p = parity_of(codeword & tables.full_masks[j]);
        assert(j < 5 ==> (1usize << j) >= 1 && (1usize << j) - 1 < 32) by (bit_vector);
        codeword = codeword | (p << (((1usize << j) - 1) as u32));
        j += 1;
    }
    let overall = parity_of(codeword);
    codeword | (overall << (tables.n as u32))
}

/// Outcome of decoding one block.
#[derive(Debug, Clone, Copy, PartialEq, Eq, Structural)]
pub enum BlockStatus {
    /// No error.
    NoErrors,
    /// A single error (possibly in the overall parity bit) was corrected.
    Corrected,
    /// A double error was detected; it cannot be corrected.
    Uncorrectable,
}

/// Syndrome of `cw` over the first `i` parity checks.
pub open spec fn syndrome_of(masks: Seq<u32>, cw: u32, i: nat) -> u32
    decreases i,
{
    if i == 0 {
        0
    } else {
        syndrome_of(masks, cw, (i - 1) as nat) | (parity(cw & masks[i - 1]) << ((i - 1) as u32))
    }
}

/// The first `i` data bits of `cw`, most significant first, packed into `k` bits.
pub open spec fn gather(positions: Seq<usize>, k: nat, cw: u32, i: nat) -> u32
    decreases i,
{
    if i == 0 {
        0
    } else {
        gather(positions, k, cw, (i - 1) as nat) | (((cw >> (positions[i - 1] as u32)) & 1u32) << ((k
            - 1 - (i - 1)) as u32))
    }
}

/// The codeword after correction, given the syndrome and the total parity.
pub open spec fn corrected_word(cw: u32, syndrome: u32, total: u32) -> u32 {
    if syndrome == 0 {
        cw
    } else if total == 1 {
        cw ^ (1u32 << ((syndrome - 1) as u32))
    } else {
        cw
    }
}

pub open spec fn status_of(syndrome: u32, total: u32) -> BlockStatus {
    if syndrome == 0 && total == 0 {
        BlockStatus::NoErrors
    } else if syndrome == 0 {
        BlockStatus::Corrected
    } else if total == 1 {
        BlockStatus::Corrected
    } else {
        BlockStatus::Uncorrectable
    }
}

/// What decoding the `n + 1`-bit block `received` gives.
pub open spec fn decode_spec(t: HammingTables, received: u32) -> (u32, BlockStatus) {
    let n = t.n as u32;
    let cw = received & (((1u32 << n) - 1) as u32);
    let overall = (received >> n) & 1u32;
    let syn = syndrome_of(t.full_masks@, cw, t.m as nat);
    let total = parity(cw) ^ overall;
    (gather(t.data_positions@, t.k as nat, corrected_word(cw, syn, total), t.k as nat), status_of(
        syn,
        total,
    ))
}

/// What decoding the block `received` gives for the code with `k` data bits
/// and `m` check bits.
pub open spec fn block_decode(k: nat, m: nat, received: u32) -> (u32, BlockStatus) {
    let n = (k + m) as u32;
    let cw = received & (((1u32 << n) - 1) as u32);
    let overall = (received >> n) & 1u32;
    let syn = syndrome_of(masks_of(m, k + m), cw, m);
    let total = parity(cw) ^ overall;
    (gather(data_positions_upto(k + m), k, corrected_word(cw, syn, total), k), status_of(syn, total))
}

/// The tables compute the block code of their dimensions.
pub proof fn lemma_tables_code(t: HammingTables, d: u32, received: u32)
    requires
        t.wf(),
    ensures
        encode_spec(t, d) == block_encode(t.k as nat, t.m as nat, d),
        decode_spec(t, received) == block_decode(t.k as nat, t.m as nat, received),
{
}

proof fn lemma_syndrome_bound(masks: Seq<u32>, cw: u32, i: nat)
    requires
        i <= 5,
    ensures
        syndrome_of(masks, cw, i) < (1u32 << (i as u32)),
    decreases i,
{
    if i == 0 {
        bv_small_facts(0, 0, 0);
    } else {
        lemma_syndrome_bound(masks, cw, (i - 1) as nat);
        let s = syndrome_of(masks, cw, (i - 1) as nat);
        let p = parity(cw & masks[i - 1]);
        let j = (i - 1) as u32;
        let i32 = i as u32;
        assert(i32 == j + 1);
        lemma_parity_bit(cw & masks[i - 1]);
        assert(s | (p << j) < (1u32 << i32)) by (bit_vector)
            requires
                s < (1u32 << j),
                p <= 1,
                j < 5,
                i32 == j + 1,
        ;
    }
}

/// Decodes one block, correcting a single error where there is one.
pub fn decode_block(tables: &HammingTables, received: u32) -> (r: (u32, BlockStatus))
    requires
        tables.wf(),
    ensures
        r == decode_spec(*tables, received),
{
    proof {
        lemma_perfect_dims_cases(tables.k as nat, tables.m as nat, tables.n as nat);
    }
    let n = tables.n;
    let n32 = n as u32;
    proof {
        bv_small_facts(0, 0, n32);
    }
    let codeword = received & ((1u32 << (n as u32)) - 1);
    let overall_parity_received = (received >> (n as u32)) & 1;

    let mut syndrome: u32 = 0;
    let mut i: usize = 0;
    while i < tables.m
        invariant
            tables.wf(),
            tables.m <= 5,
            i <= tables.m,
            syndrome == syndrome_of(tables.full_masks@, codeword, i as nat),
        decreases tables.m - i,
    {
        let bit = parity_of(codeword & tables.full_masks[i]);
        syndrome = syndrome | (bit << (i as u32));
        i += 1;
    }
    proof {
        lemma_syndrome_bound(tables.full_masks@, codeword, tables.m as nat);
    }
    let total_parity = parity_of(codeword) ^ overall_parity_received;
    let m32 = tables.m as u32;
    assert(m32 <= 5 && syndrome < (1u32 << m32) ==> syndrome <= 31) by (bit_vector);

    let (corrected, status) = if syndrome == 0 {
        if total_parity == 0 {
            (codeword, BlockStatus::NoErrors)
        } else {
            (codeword, BlockStatus::Corrected)
        }
    } else if total_parity == 1 {
        (codeword ^ (1u32 << (syndrome - 1)), BlockStatus::Corrected)
    } else {
        (codeword, BlockStatus::Uncorrectable)
    };

    let k = tables.k;
    let mut data: u32 = 0;
    let mut j: usize = 0;
    while j < k
        invariant
            tables.wf(),
            k == tables.k,
            j <= k,
            data == gather(tables.data_positions@, k as nat, corrected, j as nat),
        decreases k - j,
    {
        let bit_pos = tables.data_positions[j];
        let bit = (corrected >> (bit_pos as u32)) & 1;
        data = data | (bit << ((k - 1 - j) as u32));
        j += 1;
    }
    (data, status)
}

} // verus!

verus! {

// ------------------------------------------------------------------
// The SECDED properties of the block code, for every perfect code whose
// extended block fits in 32 bits.
// ------------------------------------------------------------------

/// Bit `b` of `x`.
pub open spec fn bit(x: u32, b: u32) -> u32 {
    (x >> b) & 1u32
}

proof fn bv_or_bit(a: u32, x: u32, q: u32, b: u32)
    by (bit_vector)
    requires
        x <= 1,
        q < 32,
        b < 32,
    ensures
        bit(a | (x << q), b) == (if b == q { bit(a, b) | x } else { bit(a, b) }),
        bit(a, b) <= 1,
{
}

/// Small facts about words, shared by the proofs below.
proof fn bv_small_facts(p: u32, x: u32, j: u32)
    by (bit_vector)
    ensures
        p ^ p == 0u32,
        (p ^ 1u32) ^ p == 1u32,
        p ^ (p ^ 1u32) == 1u32,
        ((p ^ 1u32) ^ 1u32) ^ p == 0u32,
        (p ^ 1u32) ^ (p ^ 1u32) == 0u32,
        0u32 ^ 0u32 == 0u32,
        p & 0u32 == 0u32,
        x <= 1 ==> (0u32 | x) == x,
        x <= 1 ==> x ^ (x & 1u32) == 0u32,
        p == p | (0u32 << j),
        0u32 | (0u32 << j) == 0u32,
        bit(0u32, j) == 0u32,
        bit(p, j) <= 1u32,
        p & 1u32 <= 1u32,
        parity(p) <= 1,
        (p >> 0u32) << 0u32 == p,
        p & (((1u32 << 0u32) - 1) as u32) == 0u32,
        j <= 31 ==> 0u32 < (1u32 << j),
{
}

proof fn bv_or_bound(a: u32, x: u32, q: u32, n: u32)
    by (bit_vector)
    requires
        a < (1u32 << n),
        q < n,
        x <= 1,
        n <= 31,
    ensures
        a | (x << q) < (1u32 << n),
{
}

proof fn bv_parity_insert(x: u32, p: u32, q: u32, m: u32)
    by (bit_vector)
    requires
        bit(x, q) == 0,
        p <= 1,
        q < 32,
    ensures
        parity((x | (p << q)) & m) == parity(x & m) ^ (p & bit(m, q)),
{
}

proof fn bv_parity_xor(x: u32, y: u32, m: u32)
    by (bit_vector)
    ensures
        parity((x ^ y) & m) == parity(x & m) ^ parity(y & m),
        parity(x ^ y) == parity(x) ^ parity(y),
{
}

proof fn bv_parity_single(e: u32, m: u32)
    by (bit_vector)
    requires
        e < 32,
    ensures
        parity((1u32 << e) & m) == bit(m, e),
        parity(1u32 << e) == 1,
{
}

/// Bit `b` (0-based) of the mask of check `i` over positions `1..=p` is set
/// exactly when bit `i` of the position number `b + 1` is set.
proof fn lemma_mask_bits(i: nat, p: nat)
    requires
        i < 5,
        p <= 31,
    ensures
        mask_upto(i, p) < (1u32 << (p as u32)),
        forall|b: u32| b < p ==> #[trigger] bit(mask_upto(i, p), b) == bit(((b + 1) as u32), i as u32),
    decreases p,
{
    let p32 = p as u32;
    let i32 = i as u32;
    if p == 0 {
        bv_small_facts(0, 0, 0);
    } else {
        lemma_mask_bits(i, (p - 1) as nat);
        let prev = mask_upto(i, (p - 1) as nat);
        let pu = p as usize;
        let iu = i as usize;
        assert(pu == p32 as usize);
        assert(pu <= 31 && iu < 5 && pu == p32 as usize && iu == i32 as usize ==> (((pu >> iu) & 1
            != 0) == (bit(p32, i32) == 1))) by (bit_vector);
        let x: u32 = if bit(p32, i32) == 1 { 1 } else { 0 };
        let q = (p - 1) as u32;
        bv_small_facts(prev, 0, q);
        assert(mask_upto(i, p) == prev | (x << q));
        assert(prev < (1u32 << q) && q < 31 ==> prev < (1u32 << (q + 1))) by (bit_vector);
        assert(x <= 1);
        bv_or_bound(prev, x, q, p32);
        assert forall|b: u32| b < p implies #[trigger] bit(mask_upto(i, p), b) == bit(((b + 1) as u32), i as u32) by {
            bv_or_bit(prev, x, q, b);
            if b == q {
                assert(bit(prev, q) == 0) by (bit_vector)
                    requires
                        prev < (1u32 << q),
                        q < 31,
                ;
                assert(((q + 1) as u32) == p32);
                bv_small_facts(p32, x, i32);
            } else {
                assert(bit(prev, b) == bit(((b + 1) as u32), i as u32));
            }
        }
    }
}


proof fn lemma_data_positions_shape(p: nat)
    requires
        p <= 31,
    ensures
        forall|j: int|
            0 <= j < data_positions_upto(p).len() ==> #[trigger] data_positions_upto(p)[j] < p
                && !spec_is_power_of_two((data_positions_upto(p)[j] + 1) as usize),
        forall|a: int, b: int|
            0 <= a < b < data_positions_upto(p).len() ==> data_positions_upto(p)[a]
                < data_positions_upto(p)[b],
    decreases p,
{
    if p > 0 {
        lemma_data_positions_shape((p - 1) as nat);
        let prev = data_positions_upto((p - 1) as nat);
        if spec_is_power_of_two(p as usize) {
            assert(data_positions_upto(p) == prev);
        } else {
            assert(data_positions_upto(p) == prev.push((p - 1) as usize));
        }
    }
}

/// Bit `b` is the position of one of the first `i` Hamming check bits.
pub open spec fn is_check_below(b: u32, i: nat) -> bool {
    spec_is_power_of_two((b + 1) as usize) && ((b + 1) as usize) < (1usize << (i as usize))
}

proof fn lemma_spread_bits(positions: Seq<usize>, k: nat, d: u32, i: nat, n: nat)
    requires
        i <= positions.len(),
        i <= k,
        k <= 31,
        n <= 31,
        forall|j: int| 0 <= j < positions.len() ==> #[trigger] positions[j] < n,
        forall|a: int, b: int| 0 <= a < b < positions.len() ==> positions[a] < positions[b],
    ensures
        spread(positions, k, d, i) < (1u32 << (n as u32)),
        forall|j: int|
            0 <= j < i ==> #[trigger] bit(spread(positions, k, d, i), positions[j] as u32) == bit(
                d,
                (k - 1 - j) as u32,
            ),
        forall|b: u32|
            b < 32 && !positions.subrange(0, i as int).contains(b as usize) ==> #[trigger] bit(
                spread(positions, k, d, i),
                b,
            ) == 0,
    decreases i,
{
    let n32 = n as u32;
    if i == 0 {
        bv_small_facts(0, 0, n32);
        assert forall|b: u32| b < 32 implies #[trigger] bit(spread(positions, k, d, 0), b) == 0 by {
            bv_small_facts(0, 0, b);
        }
    } else {
        lemma_spread_bits(positions, k, d, (i - 1) as nat, n);
        let prev = spread(positions, k, d, (i - 1) as nat);
        let q = positions[i - 1] as u32;
        let sh = (k - 1 - (i - 1)) as u32;
        let x = (d >> sh) & 1u32;
        bv_small_facts(d, 0, sh);
        assert(spread(positions, k, d, i) == prev | (x << q));
        bv_or_bound(prev, x, q, n32);
        assert(!positions.subrange(0, (i - 1) as int).contains(q as usize)) by {
            if positions.subrange(0, (i - 1) as int).contains(q as usize) {
                let w = choose|w: int|
                    0 <= w < i - 1 && #[trigger] positions.subrange(0, (i - 1) as int)[w] == q as usize;
                assert(positions[w] < positions[i - 1]);
            }
        }
        assert(bit(prev, q) == 0);
        assert forall|j: int| 0 <= j < i implies #[trigger] bit(
            spread(positions, k, d, i),
            positions[j] as u32,
        ) == bit(d, (k - 1 - j) as u32) by {
            bv_or_bit(prev, x, q, positions[j] as u32);
            if j == i - 1 {
                bv_small_facts(0, x, 0);
            } else {
                assert(positions[j] < positions[i - 1]);
            }
        }
        assert forall|b: u32|
            b < 32 && !positions.subrange(0, i as int).contains(b as usize) implies #[trigger] bit(
            spread(positions, k, d, i),
            b,
        ) == 0 by {
            bv_or_bit(prev, x, q, b);
            assert(positions.subrange(0, i as int)[i - 1] == positions[i - 1]);
            assert(b != q);
            if positions.subrange(0, (i - 1) as int).contains(b as usize) {
                let w = choose|w: int|
                    0 <= w < i - 1 && #[trigger] positions.subrange(0, (i - 1) as int)[w] == b as usize;
                assert(positions.subrange(0, i as int)[w] == b as usize);
            }
        }
    }
}

proof fn bv_check_facts(b: u32, i: u32, q: u32)
    requires
        1 <= i <= 5,
        b < 32,
        q == ((1usize << ((i - 1) as usize)) - 1) as u32,
    ensures
        q < 16,
        is_check_below(q, i as nat),
        !is_check_below(q, (i - 1) as nat),
        spec_is_power_of_two((q + 1) as usize),
        !is_check_below(b, i as nat) ==> !is_check_below(b, (i - 1) as nat) && b != q,
        forall|j: u32| j < 5 ==> #[trigger] bit((q + 1) as u32, j) == (if j == i - 1 { 1u32 } else { 0u32 }),
{
    let iu = i as usize;
    let bu = b as usize;
    assert(1 <= i <= 5 && iu == i as usize && q == ((1usize << ((iu - 1) as usize)) - 1) as u32 ==> q < 16) by (bit_vector);
    assert(1 <= iu <= 5 && q == ((1usize << ((iu - 1) as usize)) - 1) as u32 ==> (
    spec_is_power_of_two((q + 1) as usize) && ((q + 1) as usize) < (1usize << iu) && !(((q + 1) as usize)
        < (1usize << ((iu - 1) as usize))))) by (bit_vector);
    assert(1 <= iu <= 5 && bu < 32 && q == ((1usize << ((iu - 1) as usize)) - 1) as u32 ==> (!(
    spec_is_power_of_two((b + 1) as usize) && ((b + 1) as usize) < (1usize << iu)) ==> !(
    spec_is_power_of_two((b + 1) as usize) && ((b + 1) as usize) < (1usize << ((iu - 1) as usize))) && b
        != q)) by (bit_vector);
    assert forall|j: u32| j < 5 implies #[trigger] bit((q + 1) as u32, j) == (if j == i - 1 {
        1u32
    } else {
        0u32
    }) by {
        assert(1 <= i <= 5 && iu == i as usize && j < 5 && q == ((1usize << ((iu - 1) as usize)) - 1) as u32 ==> (((((q
            + 1) as u32) >> j) & 1u32) == (if j == i - 1 { 1u32 } else { 0u32 }))) by (bit_vector);
    }
}

proof fn lemma_with_parity(t: HammingTables, s: u32, i: nat)
    requires
        t.wf(),
        i <= t.m,
        s < (1u32 << (t.n as u32)),
        forall|b: u32| b < 32 && spec_is_power_of_two((b + 1) as usize) ==> #[trigger] bit(s, b) == 0,
    ensures
        with_parity(t.full_masks@, s, i) < (1u32 << (t.n as u32)),
        forall|b: u32|
            b < 32 && !is_check_below(b, i) ==> #[trigger] bit(with_parity(t.full_masks@, s, i), b)
                == bit(s, b),
        forall|j: int|
            0 <= j < i ==> #[trigger] parity(with_parity(t.full_masks@, s, i) & t.full_masks@[j])
                == 0,
    decreases i,
{
    lemma_perfect_dims_cases(t.k as nat, t.m as nat, t.n as nat);
    if i > 0 {
        lemma_with_parity(t, s, (i - 1) as nat);
        let masks = t.full_masks@;
        let prev = with_parity(masks, s, (i - 1) as nat);
        let p = parity(prev & masks[i - 1]);
        lemma_parity_bit(prev & masks[i - 1]);
        let q = (((1usize << ((i - 1) as usize)) - 1) as u32);
        bv_check_facts(0, i as u32, q);
        assert(with_parity(masks, s, i) == prev | (p << q));
        assert(bit(prev, q) == bit(s, q));
        assert(bit(s, q) == 0);
        let n32 = t.n as u32;
        let m32 = t.m as u32;
        let i32 = i as u32;
        assert(n32 + 1 == (1usize << (m32 as usize)) as u32 && 1 <= i32 <= m32 && m32 <= 5 && q == ((
        1usize << ((i32 - 1) as usize)) - 1) as u32 ==> q < n32) by (bit_vector);
        bv_or_bound(prev, p, q, n32);
        assert forall|b: u32| b < 32 && !is_check_below(b, i) implies #[trigger] bit(
            with_parity(masks, s, i),
            b,
        ) == bit(s, b) by {
            bv_check_facts(b, i as u32, q);
            bv_or_bit(prev, p, q, b);
        }
        lemma_mask_bits((i - 1) as nat, t.n as nat);
        assert forall|j: int| 0 <= j < i implies #[trigger] parity(
            with_parity(masks, s, i) & masks[j],
        ) == 0 by {
            bv_parity_insert(prev, p, q, masks[j]);
            lemma_mask_bits(j as nat, t.n as nat);
            assert(bit(masks[j], q) == bit((q + 1) as u32, j as u32));
            assert(bit((q + 1) as u32, j as u32) == (if j == i - 1 { 1u32 } else { 0u32 }));
            bv_small_facts(p, p, 0);
            if j != i - 1 {
                assert(parity(prev & masks[j]) == 0);
            }
        }
    }
}

proof fn lemma_syndrome_zero(masks: Seq<u32>, x: u32, i: nat)
    requires
        i <= masks.len(),
        forall|j: int| 0 <= j < i ==> #[trigger] parity(x & masks[j]) == 0,
    ensures
        syndrome_of(masks, x, i) == 0,
    decreases i,
{
    if i > 0 {
        lemma_syndrome_zero(masks, x, (i - 1) as nat);
        let j = (i - 1) as u32;
        bv_small_facts(0, 0, j);
    }
}

proof fn lemma_syndrome_linear(masks: Seq<u32>, x: u32, y: u32, i: nat)
    requires
        i <= 5,
        i <= masks.len(),
    ensures
        syndrome_of(masks, x ^ y, i) == syndrome_of(masks, x, i) ^ syndrome_of(masks, y, i),
    decreases i,
{
    if i == 0 {
        bv_small_facts(0, 0, 0);
    } else {
        lemma_syndrome_linear(masks, x, y, (i - 1) as nat);
        lemma_syndrome_bound(masks, x, (i - 1) as nat);
        lemma_syndrome_bound(masks, y, (i - 1) as nat);
        let m = masks[i - 1];
        bv_parity_xor(x, y, m);
        lemma_parity_bit(x & m);
        lemma_parity_bit(y & m);
        let s1 = syndrome_of(masks, x, (i - 1) as nat);
        let s2 = syndrome_of(masks, y, (i - 1) as nat);
        let p1 = parity(x & m);
        let p2 = parity(y & m);
        let j = (i - 1) as u32;
        assert((s1 | (p1 << j)) ^ (s2 | (p2 << j)) == (s1 ^ s2) | ((p1 ^ p2) << j)) by (bit_vector)
            requires
                s1 < (1u32 << j),
                s2 < (1u32 << j),
                p1 <= 1,
                p2 <= 1,
                j < 5,
        ;
    }
}

proof fn lemma_syndrome_single(t: HammingTables, e: u32, i: nat)
    requires
        t.wf(),
        i <= t.m,
        e < t.n,
    ensures
        syndrome_of(t.full_masks@, 1u32 << e, i) == ((e + 1) as u32) & (((1u32 << (i as u32)) - 1) as u32),
    decreases i,
{
    lemma_perfect_dims_cases(t.k as nat, t.m as nat, t.n as nat);
    let v = (e + 1) as u32;
    if i == 0 {
        bv_small_facts(v, 0, 0);
    } else {
        lemma_syndrome_single(t, e, (i - 1) as nat);
        let m = t.full_masks@[i - 1];
        bv_parity_single(e, m);
        lemma_mask_bits((i - 1) as nat, t.n as nat);
        assert(bit(m, e) == bit(v, (i - 1) as u32));
        let j = (i - 1) as u32;
        let s = syndrome_of(t.full_masks@, 1u32 << e, (i - 1) as nat);
        let b = bit(v, j);
        assert(s | (b << j) == v & (((1u32 << (j + 1)) - 1) as u32)) by (bit_vector)
            requires
                s == v & (((1u32 << j) - 1) as u32),
                b == (v >> j) & 1u32,
                j < 5,
        ;
        assert(j + 1 == i as u32);
    }
}

proof fn lemma_gather(positions: Seq<usize>, k: nat, x: u32, d: u32, i: nat)
    requires
        i <= k,
        k <= positions.len(),
        k <= 31,
        d < (1u32 << (k as u32)),
        forall|j: int| 0 <= j < k ==> #[trigger] bit(x, positions[j] as u32) == bit(d, (k - 1 - j) as u32),
    ensures
        gather(positions, k, x, i) == (d >> ((k - i) as u32)) << ((k - i) as u32),
    decreases i,
{
    let k32 = k as u32;
    if i == 0 {
        assert((d >> k32) << k32 == 0) by (bit_vector)
            requires
                d < (1u32 << k32),
                k32 <= 31,
        ;
    } else {
        lemma_gather(positions, k, x, d, (i - 1) as nat);
        let r = (k - i) as u32;
        let g = gather(positions, k, x, (i - 1) as nat);
        let b = bit(x, positions[i - 1] as u32);
        assert(b == bit(d, (k - 1 - (i - 1)) as u32));
        assert(((d >> (r + 1)) << (r + 1)) | (((d >> r) & 1u32) << r) == (d >> r) << r) by (bit_vector)
            requires
                r < 31,
        ;
        assert((k - (i - 1)) as u32 == r + 1);
    }
}

/// Facts shared by the laws below about the encoded block of `d`.
proof fn lemma_encoded(t: HammingTables, d: u32) -> (c: u32)
    requires
        t.wf(),
        d < (1u32 << (t.k as u32)),
    ensures
        c < (1u32 << (t.n as u32)),
        encode_spec(t, d) == c | (parity(c) << (t.n as u32)),
        syndrome_of(t.full_masks@, c, t.m as nat) == 0,
        gather(t.data_positions@, t.k as nat, c, t.k as nat) == d,
{
    lemma_perfect_dims_cases(t.k as nat, t.m as nat, t.n as nat);
    lemma_data_positions_shape(t.n as nat);
    let positions = t.data_positions@;
    let k = t.k as nat;
    lemma_spread_bits(positions, k, d, k, t.n as nat);
    let s = spread(positions, k, d, k);
    assert forall|b: u32| b < 32 && spec_is_power_of_two((b + 1) as usize) implies #[trigger] bit(
        s,
        b,
    ) == 0 by {
        if positions.subrange(0, k as int).contains(b as usize) {
            let w = choose|w: int| 0 <= w < k && #[trigger] positions.subrange(0, k as int)[w] == b as usize;
            assert(positions[w] == b as usize);
        }
    }
    lemma_with_parity(t, s, t.m as nat);
    let c = with_parity(t.full_masks@, s, t.m as nat);
    lemma_syndrome_zero(t.full_masks@, c, t.m as nat);
    assert forall|j: int| 0 <= j < k implies #[trigger] bit(c, positions[j] as u32) == bit(
        d,
        (k - 1 - j) as u32,
    ) by {
        let b = positions[j] as u32;
        assert(!spec_is_power_of_two((positions[j] + 1) as usize));
        assert(bit(c, b) == bit(s, b));
    }
    lemma_gather(positions, k, c, d, k);
    let k32 = k as u32;
    bv_small_facts(d, 0, 0);
    assert((k - k) as u32 == 0u32);
    c
}

proof fn bv_split_received(c: u32, n: u32, e1: u32, e2: u32)
    requires
        c < (1u32 << n),
        n <= 31,
        e1 < n,
        e2 < n,
    ensures
        ({
            let r = c | (parity(c) << n);
            &&& r & (((1u32 << n) - 1) as u32) == c
            &&& (r >> n) & 1u32 == parity(c)
            &&& (r ^ (1u32 << e1)) & (((1u32 << n) - 1) as u32) == c ^ (1u32 << e1)
            &&& ((r ^ (1u32 << e1)) >> n) & 1u32 == parity(c)
            &&& (r ^ (1u32 << n)) & (((1u32 << n) - 1) as u32) == c
            &&& ((r ^ (1u32 << n)) >> n) & 1u32 == parity(c) ^ 1u32
            &&& (r ^ (1u32 << e1) ^ (1u32 << e2)) & (((1u32 << n) - 1) as u32) == (c ^ (1u32
                << e1)) ^ (1u32 << e2)
            &&& ((r ^ (1u32 << e1) ^ (1u32 << e2)) >> n) & 1u32 == parity(c)
            &&& (r ^ (1u32 << e1) ^ (1u32 << n)) & (((1u32 << n) - 1) as u32) == c ^ (1u32 << e1)
            &&& ((r ^ (1u32 << e1) ^ (1u32 << n)) >> n) & 1u32 == parity(c) ^ 1u32
        }),
{
    assert({
        let r = c | (parity(c) << n);
        &&& r & (((1u32 << n) - 1) as u32) == c
        &&& (r >> n) & 1u32 == parity(c)
        &&& (r ^ (1u32 << e1)) & (((1u32 << n) - 1) as u32) == c ^ (1u32 << e1)
        &&& ((r ^ (1u32 << e1)) >> n) & 1u32 == parity(c)
        &&& (r ^ (1u32 << n)) & (((1u32 << n) - 1) as u32) == c
        &&& ((r ^ (1u32 << n)) >> n) & 1u32 == parity(c) ^ 1u32
        &&& (r ^ (1u32 << e1) ^ (1u32 << e2)) & (((1u32 << n) - 1) as u32) == (c ^ (1u32 << e1))
            ^ (1u32 << e2)
        &&& ((r ^ (1u32 << e1) ^ (1u32 << e2)) >> n) & 1u32 == parity(c)
        &&& (r ^ (1u32 << e1) ^ (1u32 << n)) & (((1u32 << n) - 1) as u32) == c ^ (1u32 << e1)
        &&& ((r ^ (1u32 << e1) ^ (1u32 << n)) >> n) & 1u32 == parity(c) ^ 1u32
    }) by (bit_vector)
        requires
            c < (1u32 << n),
            n <= 31,
            e1 < n,
            e2 < n,
    ;
}

/// Decoding an encoded block gives its data back, and no error is reported.
pub proof fn law_block_round_trip(t: HammingTables, d: u32)
    requires
        t.wf(),
        d < (1u32 << (t.k as u32)),
    ensures
        decode_spec(t, encode_spec(t, d)) == (d, BlockStatus::NoErrors),
{
    lemma_perfect_dims_cases(t.k as nat, t.m as nat, t.n as nat);
    let c = lemma_encoded(t, d);
    bv_split_received(c, t.n as u32, 0, 0);
    bv_small_facts(parity(c), 0, 0);
}

/// One flipped bit, anywhere in the block, is corrected: the data comes back
/// and the block is reported corrected.
pub proof fn law_single_error_corrected(t: HammingTables, d: u32, e: u32)
    requires
        t.wf(),
        d < (1u32 << (t.k as u32)),
        e <= t.n,
    ensures
        decode_spec(t, encode_spec(t, d) ^ (1u32 << e)) == (d, BlockStatus::Corrected),
{
    lemma_perfect_dims_cases(t.k as nat, t.m as nat, t.n as nat);
    let c = lemma_encoded(t, d);
    let n32 = t.n as u32;
    let masks = t.full_masks@;
    if e < n32 {
        bv_split_received(c, n32, e, e);
        lemma_syndrome_linear(masks, c, 1u32 << e, t.m as nat);
        lemma_syndrome_single(t, e, t.m as nat);
        bv_parity_xor(c, 1u32 << e, 0);
        bv_parity_single(e, 0);
        let m32 = t.m as u32;
        assert(0u32 ^ ((e + 1) as u32 & (((1u32 << m32) - 1) as u32)) == (e + 1) as u32) by (bit_vector)
            requires
                e < n32,
                n32 + 1 == (1usize << (m32 as usize)) as u32,
                m32 <= 5,
        ;
        bv_small_facts(parity(c), 0, 0);
        assert((c ^ (1u32 << e)) ^ (1u32 << (((e + 1) as u32 - 1) as u32)) == c) by (bit_vector)
            requires
                e < 31,
        ;
    } else {
        assert(e == n32);
        bv_split_received(c, n32, 0, 0);
        bv_small_facts(parity(c), 0, 0);
    }
}

/// Two flipped bits are detected: the block is reported uncorrectable.
pub proof fn law_double_error_detected(t: HammingTables, d: u32, e1: u32, e2: u32)
    requires
        t.wf(),
        d < (1u32 << (t.k as u32)),
        e1 < e2 <= t.n,
    ensures
        decode_spec(t, encode_spec(t, d) ^ (1u32 << e1) ^ (1u32 << e2)).1 == BlockStatus::Uncorrectable,
{
    lemma_perfect_dims_cases(t.k as nat, t.m as nat, t.n as nat);
    let c = lemma_encoded(t, d);
    let n32 = t.n as u32;
    let m32 = t.m as u32;
    let masks = t.full_masks@;
    lemma_syndrome_single(t, e1, t.m as nat);
    if e2 < n32 {
        bv_split_received(c, n32, e1, e2);
        lemma_syndrome_linear(masks, c ^ (1u32 << e1), 1u32 << e2, t.m as nat);
        lemma_syndrome_linear(masks, c, 1u32 << e1, t.m as nat);
        lemma_syndrome_single(t, e2, t.m as nat);
        bv_parity_xor(c ^ (1u32 << e1), 1u32 << e2, 0);
        bv_parity_xor(c, 1u32 << e1, 0);
        bv_parity_single(e1, 0);
        bv_parity_single(e2, 0);
        assert((0u32 ^ ((e1 + 1) as u32 & (((1u32 << m32) - 1) as u32))) ^ ((e2 + 1) as u32 & (((1u32
            << m32) - 1) as u32)) != 0) by (bit_vector)
            requires
                e1 < e2,
                e2 < n32,
                n32 + 1 == (1usize << (m32 as usize)) as u32,
                m32 <= 5,
        ;
        bv_small_facts(parity(c), 0, 0);
    } else {
        bv_split_received(c, n32, e1, e1);
        lemma_syndrome_linear(masks, c, 1u32 << e1, t.m as nat);
        bv_parity_xor(c, 1u32 << e1, 0);
        bv_parity_single(e1, 0);
        assert(0u32 ^ ((e1 + 1) as u32 & (((1u32 << m32) - 1) as u32)) != 0) by (bit_vector)
            requires
                e1 < n32,
                n32 + 1 == (1usize << (m32 as usize)) as u32,
                m32 <= 5,
        ;
        bv_small_facts(parity(c), 0, 0);
    }
}

} // verus!
