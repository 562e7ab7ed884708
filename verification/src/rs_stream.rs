//! Reed–Solomon over a whole stream: consecutive blocks of 223 data bytes
//! and 32 parity bytes, the last block shortened to the data left.
use vstd::prelude::*;
use crate::error::{AppError, msg, msg_with_number};
use crate::hamming::BlockStatus;
use crate::ids::FecId;
use crate::rs_code::{block_within_reach, clean, decode_block, reachable, FecReport, CODEWORD_SYMBOLS, DATA_SYMBOLS, PARITY_SYMBOLS};
use crate::rs_distance::{differs_only_at, law_rs_correction_sound, positions_in};
use crate::rs_field::Gf256;
use crate::rs_laws::{lemma_codeword_clean, lemma_generator_shape};
use crate::rs_poly::{build_genzerator, generator, rs_codeword, rs_encode_block};

verus! {

/// How many of the first `b` blocks of `s` are not codewords.
pub open spec fn damaged_blocks(s: Seq<u8>, b: nat) -> nat
    decreases b,
{
    if b == 0 {
        0
    } else {
        damaged_blocks(s, (b - 1) as nat) + if clean(rs_block(s, (b - 1) as nat), 32) {
            0nat
        } else {
            1nat
        }
    }
}

/// The encoded form of `data`.
pub open spec fn rs_encoded(data: Seq<u8>) -> Seq<u8>
    decreases data.len(),
{
    if data.len() == 0 {
        seq![]
    } else {
        let t = if data.len() < 223 { data.len() } else { 223 };
        rs_codeword(data.take(t as int), generator(32)) + rs_encoded(data.skip(t as int))
    }
}

/// A stream of this length ends in a block too short for its parity.
pub open spec fn bad_length(len: nat) -> bool {
    len % 255 != 0 && len % 255 <= 32
}

pub open spec fn block_count(len: nat) -> nat {
    len / 255 + if len % 255 != 0 {
        1nat
    } else {
        0nat
    }
}

pub open spec fn block_size(len: nat, b: nat) -> nat {
    if b < len / 255 {
        255
    } else {
        len % 255
    }
}

/// Block `b` of the received stream `s`.
pub open spec fn rs_block(s: Seq<u8>, b: nat) -> Seq<u8> {
    s.subrange((255 * b) as int, (255 * b + block_size(s.len(), b)) as int)
}

/// The data parts of the first `b` blocks of `s`, one after the other.
pub open spec fn data_parts_upto(s: Seq<u8>, b: nat) -> Seq<u8>
    decreases b,
{
    if b == 0 {
        seq![]
    } else {
        data_parts_upto(s, (b - 1) as nat) + rs_block(s, (b - 1) as nat).take(
            block_size(s.len(), (b - 1) as nat) - 32,
        )
    }
}

/// Every block of `s` is a codeword.
pub open spec fn all_blocks_clean(s: Seq<u8>) -> bool {
    forall|b: nat| b < block_count(s.len()) ==> clean(#[trigger] rs_block(s, b), 32)
}

/// Block `b`'s part of the decoded output is the data part of a codeword of
/// the block's length that differs from the received block in at most 16
/// places, and it is the received data part when the block was a codeword.
pub open spec fn block_decoded(s: Seq<u8>, out: Seq<u8>, b: nat) -> bool {
    let size = block_size(s.len(), b);
    let part = out.subrange((223 * b) as int, 223 * b + size - 32);
    &&& exists|w: Seq<u8>, fixed: Seq<int>|
        #![trigger w.len(), fixed.len()]
        w.len() == size && clean(w, 32) && part == w.take(size - 32) && fixed.len() <= 16 && positions_in(
            fixed,
            size,
        ) && differs_only_at(rs_block(s, b), w, fixed)
    &&& clean(rs_block(s, b), 32) ==> part == rs_block(s, b).take(size - 32)
}

/// The Reed–Solomon code (RS(255, 223), shortened for the last block).
pub struct ReedSolomonCode;

impl ReedSolomonCode {
    /// Encodes `data` block by block.
    pub fn encode(&self, data: &[u8]) -> (r: Vec<u8>)
        ensures
            r@ == rs_encoded(data@),
    {
        let gf = Gf256::new();
        let genz = build_genzerator(&gf, PARITY_SYMBOLS);
        let mut out: Vec<u8> = Vec::new();
        let mut pos: usize = 0;
        proof {
            assert(data@.skip(0) =~= data@);
            assert(out@ + rs_encoded(data@) =~= rs_encoded(data@));
        }
        while pos < data.len()
            invariant
                gf.wf(),
                genz@ == generator(32),
                genz@.len() == 33,
                pos <= data@.len(),
                out@ + rs_encoded(data@.skip(pos as int)) == rs_encoded(data@),
            decreases data@.len() - pos,
        {
            let left = data.len() - pos;
            let take = if left < DATA_SYMBOLS { left } else { DATA_SYMBOLS };
            let block = vstd::slice::slice_subrange(data, pos, pos + take);
            let codeword = rs_encode_block(&gf, block, genz.as_slice());
            let ghost before = out@;
            crate::bytes_io::append_slice(&mut out, codeword.as_slice());
            proof {
                let rest = data@.skip(pos as int);
                assert(rest.take(take as int) =~= block@);
                assert(rest.skip(take as int) =~= data@.skip(pos + take));
                assert(before + (codeword@ + rs_encoded(data@.skip(pos + take))) =~= out@ + rs_encoded(data@.skip(pos + take)));
            }
            pos += take;
        }
        proof {
            assert(data@.skip(data@.len() as int) =~= Seq::<u8>::empty());
            assert(out@ + Seq::<u8>::empty() =~= out@);
        }
        out
    }

    /// Decodes a stream block by block, correcting what can be corrected.
    /// A stream whose last block is too short for its parity, or with a
    /// block that no codeword lies within 16 bytes of, is refused; a stream
    /// whose blocks are each within 16 bytes of the blocks encoded for some
    /// data decodes to that data.
    pub fn decode(&self, data: &[u8]) -> (r: Result<(Vec<u8>, FecReport), AppError>)
        ensures
            bad_length(data@.len()) ==> r is Err,
            r matches Err(e) ==> e is Fec,
            r matches Ok((out, rep)) ==> !bad_length(data@.len()) && rep.blocks_processed == block_count(data@.len())
                && rep.blocks_uncorrectable == 0 && rep.blocks_corrected == damaged_blocks(data@, block_count(data@.len()))
                && out@.len() == data@.len() - 32 * block_count(data@.len())
                && forall|b: nat| b < block_count(data@.len()) ==> #[trigger] block_decoded(data@, out@, b),
            !bad_length(data@.len()) && all_blocks_clean(data@) ==> (r matches Ok((out, rep)) && out@ == data_parts_upto(
                data@,
                block_count(data@.len()),
            ) && rep.blocks_corrected == 0),
            forall|sent: Seq<u8>| #[trigger] within_reach(rs_encoded(sent), data@) ==> (r matches Ok((out, _)) && out@ == sent),
            r is Err <==> bad_length(data@.len()) || exists|b: nat|
                b < block_count(data@.len()) && !#[trigger] reachable(rs_block(data@, b), 32),
    {
        let ghost s = data@;
        let ghost hyp = exists|sent: Seq<u8>| #[trigger] within_reach(rs_encoded(sent), s);
        let ghost d0 = choose|sent: Seq<u8>| #[trigger] within_reach(rs_encoded(sent), s);
        proof {
            if hyp {
                law_rs_round_trip(d0);
            }
        }
        let encoded_size = data.len();
        let full_blocks = encoded_size / CODEWORD_SYMBOLS;
        let shortened_size = encoded_size % CODEWORD_SYMBOLS;
        if shortened_size != 0 && shortened_size <= PARITY_SYMBOLS {
            return Err(AppError::Fec(msg_with_number("Reed-Solomon: некорректная длина потока ", encoded_size as u64)));
        }
        let blocks_count = full_blocks + if shortened_size != 0 { 1 } else { 0 };
        let gf = Gf256::new();
        let mut report = FecReport::default();
        let mut out: Vec<u8> = Vec::new();
        let mut b: usize = 0;
        while b < blocks_count
            invariant
                gf.wf(),
                s == data@,
                encoded_size == s.len(),
                full_blocks == s.len() / 255,
                shortened_size == s.len() % 255,
                !bad_length(s.len()),
                blocks_count == block_count(s.len()),
                b <= blocks_count,
                b <= full_blocks ==> out@.len() == 223 * b,
                b > full_blocks ==> b == blocks_count && out@.len() == 223 * full_blocks + shortened_size - 32,
                report.blocks_processed == b,
                report.blocks_uncorrectable == 0,
                report.blocks_corrected == damaged_blocks(s, b as nat),
                damaged_blocks(s, b as nat) <= b,
                forall|b2: nat| b2 < b ==> #[trigger] block_decoded(s, out@, b2),
                all_blocks_clean(s) ==> out@ == data_parts_upto(s, b as nat) && report.blocks_corrected == 0,
                hyp == exists|sent: Seq<u8>| #[trigger] within_reach(rs_encoded(sent), s),
                forall|b2: nat| b2 < b ==> #[trigger] reachable(rs_block(s, b2), 32),
                hyp ==> within_reach(rs_encoded(d0), s) && all_blocks_clean(rs_encoded(d0)),
            decreases blocks_count - b,
        {
            let block_size = if b < full_blocks { CODEWORD_SYMBOLS } else { shortened_size };
            let data_size = block_size - PARITY_SYMBOLS;
            let start = b * CODEWORD_SYMBOLS;
            proof {
                assert(block_size == crate::rs_stream::block_size(s.len(), b as nat));
                assert(start + block_size <= s.len()) by (nonlinear_arith)
                    requires
                        start == b * 255,
                        b < blocks_count,
                        blocks_count == s.len() / 255 + if s.len() % 255 != 0 { 1int } else { 0int },
                        block_size == if b < s.len() / 255 { 255 } else { s.len() % 255 },
                ;
            }
            let slice = vstd::slice::slice_subrange(data, start, start + block_size);
            let mut block = vstd::slice::slice_to_vec(slice);
            let ghost received = block@;
            proof {
                assert(received =~= rs_block(s, b as nat));
            }
            let status = decode_block(&gf, &mut block, PARITY_SYMBOLS);
            report.blocks_processed = report.blocks_processed + 1;
            match status {
                BlockStatus::NoErrors => {},
                BlockStatus::Corrected => {
                    report.blocks_corrected = report.blocks_corrected + 1;
                },
                BlockStatus::Uncorrectable => {
                    proof {
                        if hyp {
                            let enc = rs_encoded(d0);
                            assert(b < block_count(enc.len()));
                            assert(clean(rs_block(enc, b as nat), 32));
                            let damaged = choose|damaged: Seq<int>|
                                #![trigger damaged.len()]
                                damaged.len() <= 16 && positions_in(damaged, crate::rs_stream::block_size(enc.len(), b as nat)) && differs_only_at(
                                    rs_block(enc, b as nat),
                                    rs_block(s, b as nat),
                                    damaged,
                                );
                            assert(block_within_reach(rs_block(enc, b as nat), received, damaged, PARITY_SYMBOLS as nat));
                            assert(status != BlockStatus::Uncorrectable);
                        }
                        assert(!hyp);
                        assert(!reachable(rs_block(s, b as nat), 32));
                    }
                    return Err(AppError::Fec(msg_with_number("Reed-Solomon: неисправимые ошибки в блоке ", (b + 1) as u64)));
                },
            }
            let ghost before = out@;
            let part = vstd::slice::slice_subrange(block.as_slice(), 0, data_size);
            crate::bytes_io::append_slice(&mut out, part);
            proof {
                assert(block@.len() == block_size);
                assert(b < full_blocks || (b == full_blocks && shortened_size != 0 && b + 1 == blocks_count));
                assert(before.len() == 223 * b);
                assert(part@ =~= block@.take(data_size as int));
                assert(out@.subrange(223 * b, 223 * b + block_size - 32) =~= part@);
                assert forall|b2: nat| b2 < b + 1 implies #[trigger] block_decoded(s, out@, b2) by {
                    let size2 = crate::rs_stream::block_size(s.len(), b2);
                    let part2 = out@.subrange((223 * b2) as int, 223 * b2 + size2 - 32);
                    if b2 < b {
                        assert(block_decoded(s, before, b2));
                        assert(b2 < full_blocks);
                        assert(part2 =~= before.subrange((223 * b2) as int, 223 * b2 + size2 - 32));
                        let (w, f) = choose|w: Seq<u8>, fixed: Seq<int>|
                            #![trigger w.len(), fixed.len()]
                            w.len() == size2 && clean(w, 32) && before.subrange((223 * b2) as int, 223 * b2 + size2 - 32)
                                == w.take(size2 - 32) && fixed.len() <= 16 && positions_in(fixed, size2) && differs_only_at(
                                rs_block(s, b2),
                                w,
                                fixed,
                            );
                        assert(w.len() == size2 && clean(w, 32) && part2 == w.take(size2 - 32) && f.len() <= 16
                            && positions_in(f, size2) && differs_only_at(rs_block(s, b2), w, f));
                    } else {
                        if status == BlockStatus::NoErrors {
                            assert(clean(received, 32));
                            let none = Seq::<int>::empty();
                            assert(differs_only_at(rs_block(s, b2), block@, none));
                            assert(positions_in(none, block_size as nat));
                            assert(block@.len() == size2 && clean(block@, 32) && part2 == block@.take(size2 - 32)
                                && none.len() <= 16 && positions_in(none, size2) && differs_only_at(rs_block(s, b2), block@, none));
                        } else {
                            let fixed = choose|fixed: Seq<int>| #![trigger fixed.len()]
                                2 * fixed.len() <= 32 && positions_in(fixed, received.len()) && differs_only_at(
                                    received,
                                    block@,
                                    fixed,
                                );
                            assert(fixed.len() <= 16);
                            assert(block@.len() == size2 && clean(block@, 32) && part2 == block@.take(size2 - 32)
                                && fixed.len() <= 16 && positions_in(fixed, size2) && differs_only_at(rs_block(s, b2), block@, fixed));
                        }
                        assert(clean(block@, 32));
                    }
                }
                if all_blocks_clean(s) {
                    assert(clean(rs_block(s, b as nat), 32));
                    assert(out@ =~= data_parts_upto(s, (b + 1) as nat));
                }
                assert(reachable(rs_block(s, b as nat), 32));
            }
            b += 1;
        }
        proof {
            assert forall|sent: Seq<u8>| #[trigger] within_reach(rs_encoded(sent), s) implies out@ == sent by {
                law_rs_stream_correction_sound(sent, s, out@);
            }
        }
        Ok((out, report))
    }

    pub fn id(&self) -> (r: FecId)
        ensures
            r == FecId::ReedSolomon,
    {
        FecId::ReedSolomon
    }
}

/// No error correction: the data passes as it is.
pub struct NoneFec;

impl NoneFec {
    pub fn encode(&self, data: &[u8]) -> (r: Vec<u8>)
        ensures
            r@ == data@,
    {
        vstd::slice::slice_to_vec(data)
    }

    pub fn decode(&self, data: &[u8]) -> (r: Result<(Vec<u8>, FecReport), AppError>)
        ensures
            r matches Ok((out, rep)) && out@ == data@ && rep.blocks_processed == 0 && rep.blocks_corrected == 0
                && rep.blocks_uncorrectable == 0,
    {
        Ok((vstd::slice::slice_to_vec(data), FecReport::default()))
    }

    pub fn id(&self) -> (r: FecId)
        ensures
            r == FecId::NoFec,
    {
        FecId::NoFec
    }
}

proof fn lemma_division_len(data: Seq<u8>, g: Seq<u8>, i: nat)
    requires
        g.len() >= 1,
    ensures
        crate::rs_poly::division_upto(data, g, i).len() == data.len() + g.len() - 1,
    decreases i,
{
    if i > 0 {
        lemma_division_len(data, g, (i - 1) as nat);
    }
}

proof fn lemma_codeword_shape(data: Seq<u8>)
    ensures
        rs_codeword(data, generator(32)).len() == data.len() + 32,
        rs_codeword(data, generator(32)).take(data.len() as int) == data,
{
    lemma_generator_shape(32);
    lemma_division_len(data, generator(32), data.len());
    assert(rs_codeword(data, generator(32)).take(data.len() as int) =~= data);
}

/// The data parts of a stream whose first block is full: that block's, then the rest's.
proof fn lemma_parts_shift(s: Seq<u8>, b: nat)
    requires
        s.len() >= 255,
        b <= block_count((s.len() - 255) as nat),
    ensures
        data_parts_upto(s, b + 1) == s.take(223) + data_parts_upto(s.skip(255), b),
    decreases b,
{
    let t = s.skip(255);
    assert(s.len() / 255 == t.len() / 255 + 1);
    assert(s.len() % 255 == t.len() % 255);
    if b == 0 {
        assert(rs_block(s, 0) =~= s.take(255));
        assert(s.take(255).take(223) =~= s.take(223));
        assert(s.take(223) + Seq::<u8>::empty() =~= s.take(223));
        assert(block_size(s.len(), 0) == 255);
        assert(data_parts_upto(s, 1) == data_parts_upto(s, 0) + rs_block(s, 0).take(223));
        assert(Seq::<u8>::empty() + s.take(255).take(223) =~= s.take(223));
    } else {
        lemma_parts_shift(s, (b - 1) as nat);
        let k = (b - 1) as nat;
        assert(block_size(s.len(), k + 1) == block_size(t.len(), k));
        assert(rs_block(s, k + 1) =~= rs_block(t, k));
        assert(s.take(223) + data_parts_upto(t, k) + rs_block(t, k).take(block_size(t.len(), k) - 32)
            =~= s.take(223) + (data_parts_upto(t, k) + rs_block(t, k).take(block_size(t.len(), k) - 32)));
    }
}

/// The encoded stream has a valid length, and its data parts are the data.
pub proof fn law_rs_layout(data: Seq<u8>)
    ensures
        !bad_length(rs_encoded(data).len()),
        data_parts_upto(rs_encoded(data), block_count(rs_encoded(data).len())) == data,
        rs_encoded(data).len() == data.len() + 32 * block_count(rs_encoded(data).len()),
    decreases data.len(),
{
    let enc = rs_encoded(data);
    if data.len() == 0 {
        assert(enc.len() == 0);
        assert(data =~= Seq::<u8>::empty());
    } else if data.len() < 223 {
        lemma_codeword_shape(data);
        assert(data.take(data.len() as int) =~= data);
        assert(data.skip(data.len() as int) =~= Seq::<u8>::empty());
        assert(rs_encoded(Seq::<u8>::empty()) == Seq::<u8>::empty());
        let cw = rs_codeword(data, generator(32));
        assert(enc == cw + rs_encoded(data.skip(data.len() as int)));
        assert(cw + Seq::<u8>::empty() =~= cw);
        assert(enc =~= cw);
        assert(enc.len() / 255 == 0);
        assert(block_count(enc.len()) == 1);
        assert(rs_block(enc, 0) =~= enc);
        assert(Seq::<u8>::empty() + enc.take(data.len() as int) =~= data);
        assert(data_parts_upto(enc, 1) == data_parts_upto(enc, 0) + rs_block(enc, 0).take(block_size(enc.len(), 0) - 32));
    } else {
        let rest = data.skip(223);
        law_rs_layout(rest);
        lemma_codeword_shape(data.take(223));
        let cw = rs_codeword(data.take(223), generator(32));
        let erest = rs_encoded(rest);
        assert(enc == cw + erest);
        assert(enc.skip(255) =~= erest);
        assert(enc.take(223) =~= data.take(223));
        assert(block_count(enc.len()) == block_count(erest.len()) + 1);
        lemma_parts_shift(enc, block_count(erest.len()));
        assert(data.take(223) + rest =~= data);
    }
}

/// Every block of an encoded stream is a codeword.
proof fn lemma_encoded_clean(data: Seq<u8>)
    ensures
        all_blocks_clean(rs_encoded(data)),
    decreases data.len(),
{
    let enc = rs_encoded(data);
    if data.len() == 0 {
        assert(enc.len() == 0);
    } else if data.len() < 223 {
        lemma_codeword_shape(data);
        lemma_codeword_clean(data, 32);
        assert(data.take(data.len() as int) =~= data);
        assert(data.skip(data.len() as int) =~= Seq::<u8>::empty());
        let cw = rs_codeword(data, generator(32));
        assert(enc == cw + rs_encoded(data.skip(data.len() as int)));
        assert(cw + Seq::<u8>::empty() =~= cw);
        assert(enc =~= cw);
        assert(block_count(enc.len()) == 1);
        assert(rs_block(enc, 0) =~= enc);
    } else {
        let rest = data.skip(223);
        lemma_encoded_clean(rest);
        lemma_codeword_shape(data.take(223));
        lemma_codeword_clean(data.take(223), 32);
        let cw = rs_codeword(data.take(223), generator(32));
        let erest = rs_encoded(rest);
        assert(enc == cw + erest);
        assert(enc.skip(255) =~= erest);
        assert(enc.len() / 255 == erest.len() / 255 + 1);
        assert(enc.len() % 255 == erest.len() % 255);
        assert forall|b: nat| b < block_count(enc.len()) implies clean(#[trigger] rs_block(enc, b), 32) by {
            if b == 0 {
                assert(block_size(enc.len(), 0) == 255);
                assert(rs_block(enc, 0) =~= cw);
            } else {
                let k = (b - 1) as nat;
                assert(block_size(enc.len(), k + 1) == block_size(erest.len(), k));
                assert(rs_block(enc, k + 1) =~= rs_block(erest, k));
                assert(k < block_count(erest.len()));
            }
        }
    }
}

/// Decoding gives back what encoding was given: the encoded stream has a
/// valid length, every block of it is a codeword, and its data parts are the
/// data; so `ReedSolomonCode::decode` returns the data with no block
/// corrected.
pub proof fn law_rs_round_trip(data: Seq<u8>)
    ensures
        !bad_length(rs_encoded(data).len()),
        all_blocks_clean(rs_encoded(data)),
        data_parts_upto(rs_encoded(data), block_count(rs_encoded(data).len())) == data,
{
    law_rs_layout(data);
    lemma_encoded_clean(data);
}

/// Each block of `received` differs from the same block of `sent` in at most
/// 16 places: the damage that the code is built to correct.
pub open spec fn within_reach(sent: Seq<u8>, received: Seq<u8>) -> bool {
    &&& sent.len() == received.len()
    &&& forall|b: nat|
        #![trigger rs_block(sent, b)]
        b < block_count(sent.len()) ==> exists|damaged: Seq<int>|
            #![trigger damaged.len()]
            damaged.len() <= 16 && positions_in(damaged, block_size(sent.len(), b)) && differs_only_at(
                rs_block(sent, b),
                rs_block(received, b),
                damaged,
            )
}

proof fn lemma_parts_len(s: Seq<u8>, k: nat)
    requires
        !bad_length(s.len()),
        k <= block_count(s.len()),
    ensures
        data_parts_upto(s, k).len() == if k <= s.len() / 255 {
            223 * k as int
        } else {
            223 * (s.len() / 255) + s.len() % 255 - 32
        },
    decreases k,
{
    if k > 0 {
        lemma_parts_len(s, (k - 1) as nat);
    }
}

/// The decoded output, built block by block, holds the data parts of `s`
/// when each block's part is the data part of the block of `s`.
proof fn lemma_parts_assemble(s: Seq<u8>, out: Seq<u8>, k: nat)
    requires
        !bad_length(s.len()),
        k <= block_count(s.len()),
        out.len() >= data_parts_upto(s, k).len(),
        forall|b: nat| b < k ==> out.subrange((223 * b) as int, 223 * b + block_size(s.len(), b) - 32) == #[trigger] rs_block(
            s,
            b,
        ).take(block_size(s.len(), b) - 32),
    ensures
        data_parts_upto(s, k) == out.take(data_parts_upto(s, k).len() as int),
    decreases k,
{
    lemma_parts_len(s, k);
    if k > 0 {
        let j = (k - 1) as nat;
        lemma_parts_len(s, j);
        lemma_parts_assemble(s, out, j);
        let size = block_size(s.len(), j);
        assert(rs_block(s, j).take(size - 32) == out.subrange((223 * j) as int, 223 * j + size - 32));
        assert(data_parts_upto(s, j).len() == 223 * j);
        assert(data_parts_upto(s, k) =~= out.take(data_parts_upto(s, k).len() as int));
    }
}

/// Decoding never returns wrong data when every block was damaged in at most
/// 16 places: whatever `ReedSolomonCode::decode` returns as `Ok` for such a
/// stream is the data that was encoded.
pub proof fn law_rs_stream_correction_sound(data: Seq<u8>, received: Seq<u8>, out: Seq<u8>)
    requires
        within_reach(rs_encoded(data), received),
        out.len() == received.len() - 32 * block_count(received.len()),
        forall|b: nat| b < block_count(received.len()) ==> #[trigger] block_decoded(received, out, b),
    ensures
        out == data,
{
    let enc = rs_encoded(data);
    law_rs_round_trip(data);
    let count = block_count(enc.len());
    assert forall|b: nat| b < count implies out.subrange((223 * b) as int, 223 * b + block_size(enc.len(), b) - 32)
        == #[trigger] rs_block(enc, b).take(block_size(enc.len(), b) - 32) by {
        let size = block_size(enc.len(), b);
        assert(block_decoded(received, out, b));
        let (w, fixed) = choose|w: Seq<u8>, fixed: Seq<int>|
            #![trigger w.len(), fixed.len()]
            w.len() == size && clean(w, 32) && out.subrange((223 * b) as int, 223 * b + size - 32) == w.take(size - 32)
                && fixed.len() <= 16 && positions_in(fixed, size) && differs_only_at(rs_block(received, b), w, fixed);
        let damaged = choose|damaged: Seq<int>|
            #![trigger damaged.len()]
            damaged.len() <= 16 && positions_in(damaged, size) && differs_only_at(
                rs_block(enc, b),
                rs_block(received, b),
                damaged,
            );
        assert(clean(rs_block(enc, b), 32));
        assert(size <= 255);
        law_rs_correction_sound(rs_block(enc, b), rs_block(received, b), w, damaged, fixed);
    }
    lemma_parts_len(enc, count);
    lemma_parts_assemble(enc, out, count);
    assert(out.take(out.len() as int) =~= out);
}

} // verus!
