//! The Hamming code over a byte stream.
//!
//! The encoded stream starts with the original size in bytes (u64,
//! little-endian). Then come the codewords: the data bits (most significant
//! bit of each byte first) are cut into groups of `data_bits`, the last group
//! padded with zero bits, and each group is written as its extended codeword
//! of `data_bits + parity_bits + 1` bits, most significant first; the last
//! byte is padded with zero bits.
use vstd::prelude::*;
use vstd::bytes::*;
use vstd::arithmetic::power2::{pow2, lemma2_to64};
use crate::bytes_io::{push_u64_le, read_u64_at};
use crate::error::{AppError, msg, msg_with_number};
use crate::hamming::{
    block_decode, block_encode, decode_block, encode_block, lemma_tables_code, perfect_dims, BlockStatus, HammingCode,
    HammingTables,
};
use crate::huffman_code::code_bits;
use crate::huffman_stream::{finish_bits, lemma_packed_empty, packed, packs, push_bits, read_stream_bit, stream_bit};
use crate::rs_code::FecReport;

verus! {

/// The number whose binary digits, most significant first, are `bs`.
pub open spec fn bits_value(bs: Seq<bool>) -> nat
    decreases bs.len(),
{
    if bs.len() == 0 {
        0
    } else {
        2 * bits_value(bs.drop_last()) + if bs.last() { 1nat } else { 0nat }
    }
}

/// The number read from the `w` stream bits from bit `p`.
pub open spec fn stream_value(s: Seq<u8>, p: int, w: nat) -> nat {
    bits_value(Seq::new(w, |j: int| stream_bit(s, p + j)))
}

/// `data_bits` and `parity_bits` form a perfect Hamming code whose extended
/// block fits in 32 bits.
pub open spec fn hamming_dims_ok(k: nat, m: nat) -> bool {
    &&& 1 <= m
    &&& k + m + 1 == pow2(m)
    &&& k + m + 1 <= 32
}

/// Number of `k`-bit groups that `bits` data bits fill, the last one padded.
pub open spec fn group_count(bits: nat, k: nat) -> nat {
    if bits == 0 {
        0
    } else {
        ((bits + k - 1) / k as int) as nat
    }
}

/// The codewords of the first `g` groups of the data bits.
pub open spec fn encoded_groups(k: nat, m: nat, data: Seq<u8>, g: nat) -> Seq<bool>
    decreases g,
{
    if g == 0 {
        seq![]
    } else {
        encoded_groups(k, m, data, (g - 1) as nat) + code_bits(
            block_encode(k, m, stream_value(data, (g - 1) * k, k) as u32),
            k + m + 1,
        )
    }
}

/// `out` is the Hamming-encoded form of `data`.
pub open spec fn hamming_encoded(k: nat, m: nat, data: Seq<u8>, out: Seq<u8>) -> bool {
    &&& out.len() >= 8
    &&& out.subrange(0, 8) == spec_u64_to_le_bytes(data.len() as u64)
    &&& packs(out.skip(8), encoded_groups(k, m, data, group_count(8 * data.len(), k)))
}

/// The original size announced by the header of an encoded stream.
pub open spec fn hamming_size(s: Seq<u8>) -> nat {
    spec_u64_from_le_bytes(s.subrange(0, 8)) as nat
}

/// Block `b` of an encoded stream, as read.
pub open spec fn received_block(k: nat, m: nat, s: Seq<u8>, b: nat) -> u32 {
    stream_value(s, (64 + b * (k + m + 1)) as int, k + m + 1) as u32
}

/// Number of complete blocks after the header.
pub open spec fn available_blocks(k: nat, m: nat, s: Seq<u8>) -> nat {
    ((8 * (s.len() - 8)) / (k + m + 1) as int) as nat
}

/// The data bits of the first `b` blocks, as decoded.
pub open spec fn decoded_groups(k: nat, m: nat, s: Seq<u8>, b: nat) -> Seq<bool>
    decreases b,
{
    if b == 0 {
        seq![]
    } else {
        decoded_groups(k, m, s, (b - 1) as nat) + code_bits(block_decode(k, m, received_block(k, m, s, (b - 1) as nat)).0, k)
    }
}

/// Number of the first `b` blocks whose status is `status`.
pub open spec fn count_status(k: nat, m: nat, s: Seq<u8>, b: nat, status: BlockStatus) -> nat
    decreases b,
{
    if b == 0 {
        0
    } else {
        count_status(k, m, s, (b - 1) as nat, status) + if block_decode(
            k,
            m,
            received_block(k, m, s, (b - 1) as nat),
        ).1 == status {
            1nat
        } else {
            0nat
        }
    }
}

/// The stream holds enough blocks for the size its header announces.
pub open spec fn decodable(k: nat, m: nat, s: Seq<u8>) -> bool {
    &&& s.len() >= 8
    &&& (hamming_size(s) == 0 || (k > 0 && available_blocks(k, m, s) * k >= 8 * hamming_size(s)))
}

/// Number of blocks the decoder goes through: one when the size is zero and
/// a block is there, otherwise as many as the data bits need.
pub open spec fn blocks_read(k: nat, m: nat, s: Seq<u8>) -> nat {
    if hamming_size(s) == 0 {
        if available_blocks(k, m, s) >= 1 { 1 } else { 0 }
    } else {
        group_count(8 * hamming_size(s), k)
    }
}

proof fn bv_append_bit(v: u64, b: u64, t: u32)
    by (bit_vector)
    requires
        v < (1u64 << t),
        b <= 1,
        t < 32,
    ensures
        (v << 1u64) | b == v * 2 + b,
        v * 2 + b < (1u64 << (t + 1) as u32),
        (1u64 << (t + 1) as u32) <= 0x1_0000_0000,
{
}

/// The `w` stream bits from bit `p`, as a number.
pub fn read_bits(s: &[u8], p: u128, w: u32) -> (r: u32)
    requires
        w <= 32,
        p + w <= u128::MAX,
    ensures
        r == stream_value(s@, p as int, w as nat),
{
    let mut v: u64 = 0;
    let mut t: u32 = 0;
    proof {
        assert((1u64 << 0u32) == 1) by (bit_vector);
        assert(Seq::new(0, |j: int| stream_bit(s@, p + j)) =~= Seq::<bool>::empty());
    }
    while t < w
        invariant
            t <= w,
            w <= 32,
            p + w <= u128::MAX,
            v < (1u64 << t),
            (1u64 << t) <= 0x1_0000_0000,
            v == bits_value(Seq::new(t as nat, |j: int| stream_bit(s@, p + j))),
        decreases w - t,
    {
        let b = read_stream_bit(s, p + t as u128);
        let bv: u64 = if b { 1 } else { 0 };
        proof {
            bv_append_bit(v, bv, t);
            let prev = Seq::new(t as nat, |j: int| stream_bit(s@, p + j));
            let next = Seq::new((t + 1) as nat, |j: int| stream_bit(s@, p + j));
            assert(next.drop_last() =~= prev);
            assert(next.last() == b);
        }
        v = (v << 1) | bv;
        t += 1;
    }
    v as u32
}

proof fn lemma_decoded_len(k: nat, m: nat, s: Seq<u8>, b: nat)
    ensures
        decoded_groups(k, m, s, b).len() == b * k,
    decreases b,
{
    if b > 0 {
        let prev = (b - 1) as nat;
        lemma_decoded_len(k, m, s, prev);
        let c = code_bits(block_decode(k, m, received_block(k, m, s, prev)).0, k);
        assert(c.len() == k);
        assert(decoded_groups(k, m, s, b) == decoded_groups(k, m, s, prev) + c);
        assert(prev * k + k == b * k) by (nonlinear_arith)
            requires prev + 1 == b;
        assert(decoded_groups(k, m, s, b).len() == prev * k + k);
    } else {
        assert(b * k == 0) by (nonlinear_arith)
            requires b == 0;
    }
}

proof fn lemma_count_le(k: nat, m: nat, s: Seq<u8>, b: nat, status: BlockStatus)
    ensures
        count_status(k, m, s, b, status) <= b,
    decreases b,
{
    if b > 0 {
        lemma_count_le(k, m, s, (b - 1) as nat, status);
    }
}

proof fn bv_shift_compose(v: u32, a: u32, c: u32)
    by (bit_vector)
    requires
        a + c < 32,
    ensures
        (v >> a) >> c == v >> ((a + c) as u32),
{
}

/// The top `take` of the `k` low bits of `v`.
proof fn lemma_code_bits_prefix(v: u32, k: nat, take: nat)
    requires
        take <= k < 32,
    ensures
        code_bits(v >> ((k - take) as u32), take) == code_bits(v, k).take(take as int),
{
    assert forall|j: int| 0 <= j < take implies #[trigger] code_bits(v >> ((k - take) as u32), take)[j] == code_bits(v, k)[j] by {
        bv_shift_compose(v, (k - take) as u32, (take - 1 - j) as u32);
        assert(((k - take) + (take - 1 - j)) as u32 == (k - 1 - j) as u32);
    }
    assert(code_bits(v >> ((k - take) as u32), take) =~= code_bits(v, k).take(take as int));
}

impl HammingCode {
    /// The (7,4) code: 4 data bits and 3 check bits per block.
    pub fn new_7_4() -> (r: HammingCode)
        ensures
            r.data_bits == 4 && r.parity_bits == 3,
    {
        HammingCode { data_bits: 4, parity_bits: 3 }
    }

    /// The (15,11) code: 11 data bits and 4 check bits per block.
    pub fn new_15_11() -> (r: HammingCode)
        ensures
            r.data_bits == 11 && r.parity_bits == 4,
    {
        HammingCode { data_bits: 11, parity_bits: 4 }
    }

    /// `(data_bits, parity_bits, data_bits + parity_bits)`, when they form a
    /// perfect code whose extended block fits in 32 bits.
    fn dimensions(&self) -> (r: Result<(usize, usize, usize), AppError>)
        ensures
            r is Ok <==> hamming_dims_ok(self.data_bits as nat, self.parity_bits as nat),
            r matches Ok((k, m, n)) ==> k == self.data_bits && m == self.parity_bits && n == k + m
                && perfect_dims(k as nat, m as nat, n as nat),
            r matches Err(e) ==> e is Fec,
    {
        let k = self.data_bits;
        let m = self.parity_bits;
        proof {
            lemma2_to64();
        }
        if m == 0 || m > 5 {
            proof {
                if m > 5 {
                    vstd::arithmetic::power2::lemma_pow2_strictly_increases(5, m as nat);
                }
            }
            return Err(AppError::Fec(msg_with_number("Hamming: недопустимое количество проверочных бит parity_bits=", m as u64)));
        }
        let mu = m as usize;
        let full: usize = 1usize << mu;
        proof {
            assert((1usize << 1usize) == 2 && (1usize << 2usize) == 4 && (1usize << 3usize) == 8 && (1usize << 4usize) == 16 && (1usize << 5usize) == 32) by (bit_vector);
            assert(m == 1 || m == 2 || m == 3 || m == 4 || m == 5);
            assert(full == pow2(m as nat));
        }
        let n: u64 = k as u64 + m as u64;
        if n != full as u64 - 1 {
            return Err(AppError::Fec(msg("Hamming: data_bits и parity_bits не образуют совершенный код - ожидалось data_bits + parity_bits == 2^parity_bits - 1")));
        }
        if n + 1 > 32 {
            return Err(AppError::Fec(msg("Hamming: блок не помещается в u32")));
        }
        Ok((k as usize, m as usize, n as usize))
    }

    /// Encodes `data`: the size header, then one codeword per group of
    /// `data_bits` data bits.
    pub fn encode(&self, data: &[u8]) -> (r: Result<Vec<u8>, AppError>)
        requires
            !(self.data_bits == 0 && self.parity_bits == 1 && data@.len() > 0),
        ensures
            r is Ok <==> hamming_dims_ok(self.data_bits as nat, self.parity_bits as nat),
            r matches Ok(out) ==> hamming_encoded(self.data_bits as nat, self.parity_bits as nat, data@, out@),
            r matches Err(e) ==> e is Fec,
    {
        let (k, m, n) = match self.dimensions() {
            Ok(dims) => dims,
            Err(e) => {
                return Err(e);
            },
        };
        proof {
            crate::hamming::lemma_perfect_dims_cases(k as nat, m as nat, n as nat);
        }
        let tables = HammingTables::build(k, m, n);
        let block_len: u32 = (n + 1) as u32;
        let total_bits: u128 = data.len() as u128 * 8;
        let kk: u128 = k as u128;
        let groups: u128 = if total_bits == 0 { 0 } else { (total_bits + kk - 1) / kk };
        proof {
            if total_bits > 0 {
                assert(kk > 0);
                let ghost x: int = total_bits + kk - 1;
                let ghost y: int = kk as int;
                assert(x / y <= x) by (nonlinear_arith)
                    requires y > 0, x >= 0;
            }
        }
        let ghost d = data@;
        let ghost kn = k as nat;
        let ghost mn = m as nat;
        let mut body: Vec<u8> = Vec::new();
        let mut cur: u8 = 0;
        let mut nb: u32 = 0;
        let mut g: u128 = 0;
        proof {
            lemma_packed_empty();
        }
        while g < groups
            invariant
                d == data@,
                kn == k,
                mn == m,
                tables.wf(),
                tables.k == k && tables.m == m && tables.n == n,
                n == k + m,
                k <= 26,
                block_len == n + 1,
                kk == k,
                groups <= total_bits + 26,
                total_bits <= 8 * 0x1_0000_0000_0000_0000,
                g <= groups,
                packed(body@, cur, nb, encoded_groups(kn, mn, d, g as nat)),
            decreases groups - g,
        {
            assert(g * kk <= groups * 26) by (nonlinear_arith)
                requires g <= groups, kk <= 26;
            let pos = g * kk;
            let k32 = k as u32;
            assert(k32 as nat == kn);
            let v = read_bits(data, pos, k32);
            assert(v as nat == stream_value(d, pos as int, kn));
            let cw = encode_block(&tables, v);
            proof {
                lemma_tables_code(tables, v, 0);
                assert(pos as int == g * kk);
                assert(stream_value(d, g * kn, kn) as u32 == v);
                assert(encoded_groups(kn, mn, d, (g + 1) as nat) == encoded_groups(kn, mn, d, g as nat) + code_bits(cw, block_len as nat));
            }
            push_bits(&mut body, &mut cur, &mut nb, cw, block_len, Ghost(encoded_groups(kn, mn, d, g as nat)));
            g += 1;
        }
        finish_bits(&mut body, cur, nb, Ghost(encoded_groups(kn, mn, d, g as nat)));
        let mut out: Vec<u8> = Vec::new();
        push_u64_le(&mut out, data.len() as u64);
        crate::bytes_io::append_slice(&mut out, body.as_slice());
        proof {
            lemma_auto_spec_u64_to_from_le_bytes();
            assert(out@.subrange(0, 8) =~= spec_u64_to_le_bytes(data@.len() as u64));
            assert(out@.skip(8) =~= body@);
            assert(g as nat == group_count(8 * d.len(), kn));
        }
        Ok(out)
    }

    /// Decodes a stream written by `encode`, correcting what the code can
    /// correct, and reports how many blocks it read, corrected and found
    /// uncorrectable. Fails when the stream is shorter than its header says.
    pub fn decode(&self, data: &[u8]) -> (r: Result<(Vec<u8>, FecReport), AppError>)
        requires
            data@.len() <= isize::MAX,
        ensures
            r is Ok <==> hamming_dims_ok(self.data_bits as nat, self.parity_bits as nat)
                && decodable(self.data_bits as nat, self.parity_bits as nat, data@),
            r matches Ok((out, report)) ==> {
                let k = self.data_bits as nat;
                let m = self.parity_bits as nat;
                let b = blocks_read(k, m, data@);
                &&& out@.len() == hamming_size(data@)
                &&& forall|i: int| 0 <= i < 8 * out@.len() ==> #[trigger] stream_bit(out@, i) == decoded_groups(k, m, data@, b)[i]
                &&& report.blocks_processed == b
                &&& report.blocks_corrected == count_status(k, m, data@, b, BlockStatus::Corrected)
                &&& report.blocks_uncorrectable == count_status(k, m, data@, b, BlockStatus::Uncorrectable)
            },
            r matches Err(e) ==> e is Fec,
    {
        let (k, m, n) = match self.dimensions() {
            Ok(dims) => dims,
            Err(e) => {
                return Err(e);
            },
        };
        proof {
            crate::hamming::lemma_perfect_dims_cases(k as nat, m as nat, n as nat);
        }
        if data.len() < 8 {
            return Err(AppError::Fec(msg("Hamming: неожиданный конец потока при чтении заголовка")));
        }
        let ghost s = data@;
        let ghost kn = k as nat;
        let ghost mn = m as nat;
        let original_size = read_u64_at(data, 0);
        let total: u128 = original_size as u128 * 8;
        let kk: u128 = k as u128;
        let block_len: u32 = (n + 1) as u32;
        let available: u128 = (data.len() - 8) as u128 * 8 / block_len as u128;
        proof {
            assert(original_size == hamming_size(s));
            assert(available == available_blocks(kn, mn, s));
            let ghost x: int = (data.len() - 8) * 8;
            let ghost y: int = block_len as int;
            assert(x / y <= x / 2) by (nonlinear_arith)
                requires y >= 2, x >= 0;
            assert(available <= 4 * s.len());
        }
        assert(available * kk <= 4 * 0x1_0000_0000_0000_0000 * 26) by (nonlinear_arith)
            requires available <= 4 * 0x1_0000_0000_0000_0000, kk <= 26;
        if total > 0 && (kk == 0 || available * kk < total) {
            return Err(AppError::Fec(msg_with_number("Hamming: закодированный поток короче ожидаемого - размер данных: ", original_size)));
        }
        let ghost wanted = blocks_read(kn, mn, s);
        proof {
            if total > 0 {
                let ghost x: int = total as int;
                let ghost y: int = kk as int;
                let ghost a: int = available as int;
                assert((x + y - 1) / y <= a) by (nonlinear_arith)
                    requires y > 0, x > 0, a * y >= x;
                assert(k >= 1 && m >= 2 && block_len >= 4);
                let ghost z: int = (data.len() - 8) * 8;
                assert(z / (block_len as int) <= z / 4) by (nonlinear_arith)
                    requires block_len >= 4, z >= 0;
            }
            assert(wanted < 0x1_0000_0000_0000_0000);
        }
        let tables = HammingTables::build(k, m, n);
        let mut report = FecReport::default();
        let mut out: Vec<u8> = Vec::new();
        let mut cur: u8 = 0;
        let mut nb: u32 = 0;
        let mut produced: u128 = 0;
        let mut b: u128 = 0;
        proof {
            lemma_packed_empty();
            assert(decoded_groups(kn, mn, s, 0).take(0) =~= Seq::<bool>::empty());
        }
        while b < available
            invariant_except_break
                produced < total || b == 0,
            invariant
                s == data@,
                kn == k,
                mn == m,
                tables.wf(),
                tables.k == k && tables.m == m && tables.n == n,
                n == k + m,
                k <= 26,
                kk == k,
                block_len == n + 1,
                total == 8 * hamming_size(s),
                available == available_blocks(kn, mn, s),
                total == 0 || (k > 0 && available * k >= total),
                available <= 4 * s.len(),
                s.len() <= isize::MAX,
                wanted == blocks_read(kn, mn, s),
                wanted < 0x1_0000_0000_0000_0000,
                b <= available,
                b <= wanted,
                total == 0 ==> wanted == if available >= 1 { 1int } else { 0int },
                total > 0 ==> wanted == group_count(total as nat, kn),
                produced == if b * k < total { b * k } else { total as int },
                packed(out@, cur, nb, decoded_groups(kn, mn, s, b as nat).take(produced as int)),
                report.blocks_processed == b,
                report.blocks_corrected == count_status(kn, mn, s, b as nat, BlockStatus::Corrected),
                report.blocks_uncorrectable == count_status(kn, mn, s, b as nat, BlockStatus::Uncorrectable),
            ensures
                b == wanted,
                produced == total,
                packed(out@, cur, nb, decoded_groups(kn, mn, s, b as nat).take(produced as int)),
                report.blocks_processed == b,
                report.blocks_corrected == count_status(kn, mn, s, b as nat, BlockStatus::Corrected),
                report.blocks_uncorrectable == count_status(kn, mn, s, b as nat, BlockStatus::Uncorrectable),
            decreases available - b,
        {
            proof {
                if total > 0 {
                    let ghost x: int = total as int;
                    let ghost y: int = k as int;
                    let ghost bb: int = b as int;
                    assert(bb + 1 <= (x + y - 1) / y) by (nonlinear_arith)
                        requires y > 0, bb * y < x;
                }
                lemma_count_le(kn, mn, s, b as nat, BlockStatus::Corrected);
                lemma_count_le(kn, mn, s, b as nat, BlockStatus::Uncorrectable);
                lemma_decoded_len(kn, mn, s, b as nat);
            }
            assert(b * block_len <= 4 * 0x1_0000_0000_0000_0000 * 32) by (nonlinear_arith)
                requires b <= 4 * 0x1_0000_0000_0000_0000, block_len <= 32;
            let start: u128 = 64 + b * block_len as u128;
            let received = read_bits(data, start, block_len);
            let (value, status) = decode_block(&tables, received);
            let ghost prefix = decoded_groups(kn, mn, s, b as nat).take(produced as int);
            proof {
                lemma_tables_code(tables, 0, received);
                assert(received == received_block(kn, mn, s, b as nat));
                assert(decoded_groups(kn, mn, s, (b + 1) as nat) == decoded_groups(kn, mn, s, b as nat) + code_bits(value, kn));
            }
            report.blocks_processed = report.blocks_processed + 1;
            match status {
                BlockStatus::NoErrors => {},
                BlockStatus::Corrected => {
                    report.blocks_corrected = report.blocks_corrected + 1;
                },
                BlockStatus::Uncorrectable => {
                    report.blocks_uncorrectable = report.blocks_uncorrectable + 1;
                },
            }
            let remaining = total - produced;
            let take: u32 = if kk < remaining { k as u32 } else { remaining as u32 };
            if take > 0 {
                proof {
                    lemma_code_bits_prefix(value, kn, take as nat);
                    assert(produced == b * k);
                    assert(decoded_groups(kn, mn, s, (b + 1) as nat).take(produced + take) =~= prefix + code_bits(value, kn).take(take as int));
                }
                push_bits(&mut out, &mut cur, &mut nb, value >> (k as u32 - take), take, Ghost(prefix));
                produced = produced + take as u128;
                proof {
                    assert((b + 1) * k == b * k + k) by (nonlinear_arith);
                }
            } else {
                proof {
                    assert(produced == total);
                    assert(total == 0);
                    assert(decoded_groups(kn, mn, s, (b + 1) as nat).take(0) =~= prefix);
                    assert((b + 1) * k >= 0) by (nonlinear_arith)
                        requires b >= 0, k >= 0;
                }
            }
            b += 1;
            if produced >= total {
                proof {
                    if total > 0 {
                        let ghost x: int = total as int;
                        let ghost y: int = k as int;
                        let ghost bb: int = b as int;
                        assert(bb == (x + y - 1) / y) by (nonlinear_arith)
                            requires y > 0, (bb - 1) * y < x, bb * y >= x;
                    }
                }
                break;
            }
        }
        proof {
            lemma_decoded_len(kn, mn, s, b as nat);
            assert(nb == 0);
        }
        finish_bits(&mut out, cur, nb, Ghost(decoded_groups(kn, mn, s, b as nat).take(produced as int)));
        Ok((out, report))
    }
}

} // verus!

verus! {

// ------------------------------------------------------------------
// What the encoder writes, the decoder reads back.
// ------------------------------------------------------------------

proof fn bv_bit_facts(c: u32, y: u32, b: u32, l: u32, n: u32, x: u8, z: u8)
    by (bit_vector)
    ensures
        c >> 0u32 == c,
        c & 0u32 == 0u32,
        c & 1u32 <= 1u32,
        ((1u64 << 0u64) - 1) as u32 == 0u32,
        y < 0x8000_0000 && b <= 1 ==> ((y * 2 + b) as u32) >> 1u32 == y && ((y * 2 + b) as u32) & 1u32 == b,
        1 <= l <= 32 ==> (((c >> 1u32) & (((1u64 << (l - 1) as u64) - 1) as u32)) as u64) * 2 + (c & 1u32) as u64
            == (c & (((1u64 << l as u64) - 1) as u32)) as u64,
        n < 32 ==> (c & (((1u64 << (n + 1) as u64) - 1) as u32)) & (((1u32 << n) - 1) as u32) == c & (((1u32 << n)
            - 1) as u32),
        n < 32 ==> ((c & (((1u64 << (n + 1) as u64) - 1) as u32)) >> n) & 1u32 == (c >> n) & 1u32,
        ((x >> 0u8) & 1u8 == 1u8) == ((z >> 0u8) & 1u8 == 1u8) && ((x >> 1u8) & 1u8 == 1u8) == ((z >> 1u8) & 1u8 == 1u8)
            && ((x >> 2u8) & 1u8 == 1u8) == ((z >> 2u8) & 1u8 == 1u8) && ((x >> 3u8) & 1u8 == 1u8) == ((z >> 3u8) & 1u8
            == 1u8) && ((x >> 4u8) & 1u8 == 1u8) == ((z >> 4u8) & 1u8 == 1u8) && ((x >> 5u8) & 1u8 == 1u8) == ((z >> 5u8)
            & 1u8 == 1u8) && ((x >> 6u8) & 1u8 == 1u8) == ((z >> 6u8) & 1u8 == 1u8) && ((x >> 7u8) & 1u8 == 1u8) == ((z
            >> 7u8) & 1u8 == 1u8) ==> x == z,
{
}

/// The low `l` bits of a word.
pub open spec fn low_bits(c: u32, l: nat) -> u32 {
    c & (((1u64 << (l as u64)) - 1) as u32)
}

/// Dropping the last of the `l` low bits of `c` leaves the `l - 1` low bits of `c >> 1`.
proof fn lemma_code_bits_drop_last(c: u32, l: nat)
    requires
        1 <= l <= 32,
    ensures
        code_bits(c, l).drop_last() == code_bits(c >> 1u32, (l - 1) as nat),
        code_bits(c, l).last() == (c & 1u32 == 1u32),
{
    assert forall|j: int| 0 <= j < l - 1 implies #[trigger] code_bits(c, l).drop_last()[j] == code_bits(c >> 1u32, (l - 1) as nat)[j] by {
        bv_shift_compose(c, 1, (l - 2 - j) as u32);
        assert((1 + (l - 2 - j)) as u32 == (l - 1 - j) as u32);
    }
    assert(code_bits(c, l).drop_last() =~= code_bits(c >> 1u32, (l - 1) as nat));
    bv_bit_facts(c, 0, 0, 1, 0, 0, 0);
}

/// Reading back the `l` low bits of `c` gives them as a number.
proof fn lemma_value_of_code_bits(c: u32, l: nat)
    requires
        l <= 32,
    ensures
        bits_value(code_bits(c, l)) == low_bits(c, l),
    decreases l,
{
    if l == 0 {
        bv_bit_facts(c, 0, 0, 1, 0, 0, 0);
        assert(code_bits(c, 0) =~= Seq::<bool>::empty());
    } else {
        let bs = code_bits(c, l);
        lemma_code_bits_drop_last(c, l);
        lemma_value_of_code_bits(c >> 1u32, (l - 1) as nat);
        bv_bit_facts(c, 0, 0, l as u32, 0, 0, 0);
        assert(((l as u32) - 1) as u64 == (l - 1) as nat as u64);
        let lo = low_bits(c >> 1u32, (l - 1) as nat);
        assert(bits_value(bs) == 2 * bits_value(bs.drop_last()) + if bs.last() { 1nat } else { 0nat });
        assert(bits_value(bs.drop_last()) == lo);
        assert((if bs.last() { 1nat } else { 0nat }) == (c & 1u32));
        assert((lo as u64) * 2 + (c & 1u32) as u64 == low_bits(c, l) as u64);
    }
}

proof fn lemma_bits_value_bound(bs: Seq<bool>)
    ensures
        bits_value(bs) < pow2(bs.len()),
    decreases bs.len(),
{
    if bs.len() > 0 {
        lemma_bits_value_bound(bs.drop_last());
        vstd::arithmetic::power2::lemma_pow2_unfold(bs.len());
    } else {
        lemma2_to64();
    }
}

/// Writing a number read from bits gives the bits back.
proof fn lemma_code_bits_of_value(bs: Seq<bool>)
    requires
        bs.len() <= 32,
    ensures
        bits_value(bs) < 0x1_0000_0000,
        code_bits(bits_value(bs) as u32, bs.len()) == bs,
    decreases bs.len(),
{
    lemma_bits_value_bound(bs);
    lemma2_to64();
    if bs.len() > 32 {
    } else if bs.len() == 32 {
        assert(pow2(32) == 0x1_0000_0000);
    } else {
        vstd::arithmetic::power2::lemma_pow2_strictly_increases(bs.len(), 32);
    }
    if bs.len() == 0 {
        assert(code_bits(0, 0) =~= bs);
    } else {
        let l = bs.len();
        let prev = bs.drop_last();
        lemma_code_bits_of_value(prev);
        lemma_bits_value_bound(prev);
        if l - 1 < 31 {
            vstd::arithmetic::power2::lemma_pow2_strictly_increases((l - 1) as nat, 31);
        }
        let y = bits_value(prev) as u32;
        let b: u32 = if bs.last() { 1 } else { 0 };
        let x = bits_value(bs) as u32;
        assert(x == (y * 2 + b) as u32);
        bv_bit_facts(x, y, b, 1, 0, 0, 0);
        lemma_code_bits_drop_last(x, l);
        assert(code_bits(x, l) =~= code_bits(x, l).drop_last().push(code_bits(x, l).last()));
        assert(bs =~= prev.push(bs.last()));
    }
}

/// Decoding looks only at the `n + 1` low bits of a block.
proof fn lemma_decode_low_bits(k: nat, m: nat, c: u32)
    requires
        k + m < 32,
    ensures
        block_decode(k, m, low_bits(c, k + m + 1)) == block_decode(k, m, c),
{
    let n = (k + m) as u32;
    bv_bit_facts(c, 0, 0, 1, n, 0, 0);
    assert((n + 1) as u64 == (k + m + 1) as nat as u64);
}

proof fn lemma_stream_bit_at(a: Seq<u8>, q: int, t: int)
    requires
        0 <= q < a.len(),
        0 <= t < 8,
    ensures
        stream_bit(a, 8 * q + t) == ((a[q] >> ((7 - t) as u8)) & 1u8 == 1u8),
{
    assert((8 * q + t) / 8 == q);
    assert((8 * q + t) % 8 == t);
}

/// Two byte strings with the same bits are equal.
pub proof fn lemma_bytes_from_bits(a: Seq<u8>, b: Seq<u8>)
    requires
        a.len() == b.len(),
        forall|i: int| 0 <= i < 8 * a.len() ==> #[trigger] stream_bit(a, i) == stream_bit(b, i),
    ensures
        a == b,
{
    assert forall|q: int| 0 <= q < a.len() implies a[q] == b[q] by {
        lemma_stream_bit_at(a, q, 0);
        lemma_stream_bit_at(a, q, 1);
        lemma_stream_bit_at(a, q, 2);
        lemma_stream_bit_at(a, q, 3);
        lemma_stream_bit_at(a, q, 4);
        lemma_stream_bit_at(a, q, 5);
        lemma_stream_bit_at(a, q, 6);
        lemma_stream_bit_at(a, q, 7);
        lemma_stream_bit_at(b, q, 0);
        lemma_stream_bit_at(b, q, 1);
        lemma_stream_bit_at(b, q, 2);
        lemma_stream_bit_at(b, q, 3);
        lemma_stream_bit_at(b, q, 4);
        lemma_stream_bit_at(b, q, 5);
        lemma_stream_bit_at(b, q, 6);
        lemma_stream_bit_at(b, q, 7);
        assert(stream_bit(a, 8 * q + 0) == stream_bit(b, 8 * q + 0));
        assert(stream_bit(a, 8 * q + 1) == stream_bit(b, 8 * q + 1));
        assert(stream_bit(a, 8 * q + 2) == stream_bit(b, 8 * q + 2));
        assert(stream_bit(a, 8 * q + 3) == stream_bit(b, 8 * q + 3));
        assert(stream_bit(a, 8 * q + 4) == stream_bit(b, 8 * q + 4));
        assert(stream_bit(a, 8 * q + 5) == stream_bit(b, 8 * q + 5));
        assert(stream_bit(a, 8 * q + 6) == stream_bit(b, 8 * q + 6));
        assert(stream_bit(a, 8 * q + 7) == stream_bit(b, 8 * q + 7));
        bv_bit_facts(0, 0, 0, 1, 0, a[q], b[q]);
    }
    assert(a =~= b);
}

/// The data group that block `b` carries.
pub open spec fn group_value(k: nat, data: Seq<u8>, b: nat) -> u32 {
    stream_value(data, (b * k) as int, k) as u32
}

proof fn lemma_encoded_block(k: nat, m: nat, data: Seq<u8>, g: nat, b: nat, j: int)
    requires
        b < g,
        0 <= j < k + m + 1,
    ensures
        encoded_groups(k, m, data, g).len() == g * (k + m + 1),
        encoded_groups(k, m, data, g)[b * (k + m + 1) + j] == code_bits(block_encode(k, m, group_value(k, data, b)), k + m + 1)[j],
    decreases g,
{
    let n1 = k + m + 1;
    let prev = (g - 1) as nat;
    lemma_encoded_len(k, m, data, prev);
    let cb = code_bits(block_encode(k, m, stream_value(data, (prev * k) as int, k) as u32), n1);
    assert(encoded_groups(k, m, data, g) == encoded_groups(k, m, data, prev) + cb);
    assert(prev * n1 + n1 == g * n1) by (nonlinear_arith)
        requires prev + 1 == g;
    if b < prev {
        lemma_encoded_block(k, m, data, prev, b, j);
        assert(b * n1 + j < prev * n1) by (nonlinear_arith)
            requires b < prev, j < n1;
    } else {
        assert(b == prev);
        assert(group_value(k, data, b) == stream_value(data, (prev * k) as int, k) as u32);
    }
}

proof fn lemma_encoded_len(k: nat, m: nat, data: Seq<u8>, g: nat)
    ensures
        encoded_groups(k, m, data, g).len() == g * (k + m + 1),
    decreases g,
{
    if g > 0 {
        lemma_encoded_len(k, m, data, (g - 1) as nat);
        assert(((g - 1) as nat) * (k + m + 1) + (k + m + 1) == g * (k + m + 1)) by (nonlinear_arith)
            requires g >= 1;
    } else {
        assert(g * (k + m + 1) == 0) by (nonlinear_arith)
            requires g == 0;
    }
}

proof fn lemma_decoded_block(k: nat, m: nat, s: Seq<u8>, g: nat, b: nat, j: int)
    requires
        b < g,
        0 <= j < k,
    ensures
        decoded_groups(k, m, s, g)[b * k + j] == code_bits(block_decode(k, m, received_block(k, m, s, b)).0, k)[j],
    decreases g,
{
    let prev = (g - 1) as nat;
    lemma_decoded_len(k, m, s, prev);
    if b < prev {
        lemma_decoded_block(k, m, s, prev, b, j);
        assert(b * k + j < prev * k) by (nonlinear_arith)
            requires b < prev, j < k;
    } else {
        assert(b == prev);
    }
}

proof fn lemma_count_zero(k: nat, m: nat, s: Seq<u8>, g: nat)
    requires
        forall|b: nat| b < g ==> (#[trigger] block_decode(k, m, received_block(k, m, s, b))).1 == BlockStatus::NoErrors,
    ensures
        count_status(k, m, s, g, BlockStatus::Corrected) == 0,
        count_status(k, m, s, g, BlockStatus::Uncorrectable) == 0,
    decreases g,
{
    if g > 0 {
        let prev = (g - 1) as nat;
        assert(block_decode(k, m, received_block(k, m, s, prev)).1 == BlockStatus::NoErrors);
        lemma_count_zero(k, m, s, prev);
    }
}

/// Block `b` of an encoded stream decodes to the group it was made from.
proof fn lemma_block_read_back(t: HammingTables, data: Seq<u8>, enc: Seq<u8>, g: nat, b: nat)
    requires
        t.wf(),
        b < g,
        enc.len() >= 8,
        packs(enc.skip(8), encoded_groups(t.k as nat, t.m as nat, data, g)),
    ensures
        block_decode(t.k as nat, t.m as nat, received_block(t.k as nat, t.m as nat, enc, b)) == (group_value(t.k as nat, data, b), BlockStatus::NoErrors),
{
    let k = t.k as nat;
    let m = t.m as nat;
    let n1 = k + m + 1;
    let body = enc.skip(8);
    let big = encoded_groups(k, m, data, g);
    let v = group_value(k, data, b);
    let c = block_encode(k, m, v);
    crate::hamming::lemma_perfect_dims_cases(t.k as nat, t.m as nat, t.n as nat);
    lemma_encoded_len(k, m, data, g);
    assert(b * n1 + n1 <= g * n1) by (nonlinear_arith)
        requires b < g;
    let read = Seq::new(n1, |j: int| stream_bit(enc, (64 + b * n1) + j));
    assert forall|j: int| 0 <= j < n1 implies #[trigger] read[j] == code_bits(c, n1)[j] by {
        let i = b * n1 + j;
        assert(0 <= i < big.len());
        assert(stream_bit(enc, 64 + i) == stream_bit(body, i)) by {
            assert((64 + i) / 8 == 8 + i / 8);
            assert((64 + i) % 8 == i % 8);
        }
        assert(stream_bit(body, i) == (i < big.len() && big[i]));
        lemma_encoded_block(k, m, data, g, b, j);
        assert((64 + b * n1) + j == 64 + i);
    }
    assert(read =~= code_bits(c, n1));
    lemma_value_of_code_bits(c, n1);
    assert(received_block(k, m, enc, b) == low_bits(c, n1));
    lemma_decode_low_bits(k, m, c);
    lemma_bits_value_bound(Seq::new(k, |j: int| stream_bit(data, b * k + j)));
    lemma2_to64();
    vstd::arithmetic::power2::lemma_pow2_strictly_increases(k, 32);
    vstd::bits::lemma_u32_pow2_no_overflow(k);
    vstd::bits::lemma_u32_shl_is_mul(1, k as u32);
    assert(v < (1u32 << (t.k as u32)));
    lemma_tables_code(t, v, c);
    crate::hamming::law_block_round_trip(t, v);
}

/// What `encode` writes, `decode` gives back: an encoded stream is
/// decodable, the decoded bits are the data's bits (so `decode` returns
/// `Ok` with the data), and no block is corrected or found uncorrectable.
pub proof fn law_stream_round_trip(t: HammingTables, data: Seq<u8>, enc: Seq<u8>)
    requires
        t.wf(),
        t.k > 0 || data.len() == 0,
        data.len() <= u64::MAX,
        hamming_encoded(t.k as nat, t.m as nat, data, enc),
    ensures
        decodable(t.k as nat, t.m as nat, enc),
        hamming_size(enc) == data.len(),
        forall|i: int| 0 <= i < 8 * data.len() ==> #[trigger] decoded_groups(
            t.k as nat,
            t.m as nat,
            enc,
            blocks_read(t.k as nat, t.m as nat, enc),
        )[i] == stream_bit(data, i),
        forall|out: Seq<u8>|
            out.len() == hamming_size(enc) && (forall|i: int| 0 <= i < 8 * out.len() ==> #[trigger] stream_bit(out, i) == decoded_groups(
                t.k as nat,
                t.m as nat,
                enc,
                blocks_read(t.k as nat, t.m as nat, enc),
            )[i]) ==> #[trigger] out.len() == data.len() && out == data,
        count_status(t.k as nat, t.m as nat, enc, blocks_read(t.k as nat, t.m as nat, enc), BlockStatus::Corrected) == 0,
        count_status(t.k as nat, t.m as nat, enc, blocks_read(t.k as nat, t.m as nat, enc), BlockStatus::Uncorrectable) == 0,
{
    let k = t.k as nat;
    let m = t.m as nat;
    let n1 = k + m + 1;
    let len = data.len();
    let g = group_count(8 * len, k);
    let body = enc.skip(8);
    crate::hamming::lemma_perfect_dims_cases(t.k as nat, t.m as nat, t.n as nat);
    lemma_auto_spec_u64_to_from_le_bytes();
    assert(hamming_size(enc) == len);
    lemma_encoded_len(k, m, data, g);
    let x = g * n1;
    assert(body.len() == (x + 7) / 8);
    assert(enc.len() - 8 == body.len());
    assert(8 * ((x + 7) / 8) >= x) by (nonlinear_arith)
        requires x >= 0;
    let y = 8 * body.len();
    assert(y / n1 >= g) by (nonlinear_arith)
        requires y >= g * n1, n1 >= 1;
    let avail = available_blocks(k, m, enc);
    assert(avail >= g);
    if len > 0 {
        assert(k > 0);
        let z = 8 * len;
        assert(((z + k - 1) / (k as int)) * k >= z) by (nonlinear_arith)
            requires k > 0, z > 0;
        assert(avail * k >= g * k) by (nonlinear_arith)
            requires avail >= g;
    } else {
        assert(g == 0);
        assert(x == 0) by (nonlinear_arith)
            requires x == g * n1, g == 0;
        assert(avail == 0);
    }
    assert(blocks_read(k, m, enc) == g);
    assert forall|b: nat| b < g implies (#[trigger] block_decode(k, m, received_block(k, m, enc, b))).1 == BlockStatus::NoErrors by {
        lemma_block_read_back(t, data, enc, g, b);
    }
    lemma_count_zero(k, m, enc, g);
    assert forall|i: int| 0 <= i < 8 * data.len() implies #[trigger] decoded_groups(k, m, enc, blocks_read(k, m, enc))[i] == stream_bit(data, i) by {
        let b = (i / (k as int)) as nat;
        let j = i % (k as int);
        assert(k > 0);
        assert(b * k + j == i) by (nonlinear_arith)
            requires k > 0, b == i / (k as int), j == i % (k as int), i >= 0;
        assert(b < g) by (nonlinear_arith)
            requires k > 0, b * k + j == i, 0 <= j, i < 8 * len, g * k >= 8 * len;
        lemma_block_read_back(t, data, enc, g, b);
        lemma_decoded_block(k, m, enc, g, b, j);
        let bs = Seq::new(k, |q: int| stream_bit(data, b * k + q));
        lemma_code_bits_of_value(bs);
        assert(code_bits(group_value(k, data, b), k)[j] == bs[j]);
    }
    assert forall|out: Seq<u8>|
        out.len() == hamming_size(enc) && (forall|i: int| 0 <= i < 8 * out.len() ==> #[trigger] stream_bit(out, i) == decoded_groups(
            k,
            m,
            enc,
            blocks_read(k, m, enc),
        )[i]) implies #[trigger] out.len() == data.len() && out == data by {
        assert forall|i: int| 0 <= i < 8 * out.len() implies #[trigger] stream_bit(out, i) == stream_bit(data, i) by {
            assert(stream_bit(out, i) == decoded_groups(k, m, enc, blocks_read(k, m, enc))[i]);
        }
        lemma_bytes_from_bits(out, data);
    }
}

} // verus!
