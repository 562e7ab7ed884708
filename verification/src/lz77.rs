//! Classic LZ77: every token is a copy from the window followed by the next
//! literal, or a literal alone.
//!
//! A stream starts with the original size (u64, little-endian), then tokens:
//! tag 0 and a literal byte; tag 1, an offset (u16, little-endian), a length
//! (u8) and the literal that follows the copy; tag 2, an offset and a length,
//! for a copy that reaches the end of the data. Decoding stops once the
//! original size is out.
use vstd::prelude::*;
use vstd::bytes::*;
use crate::bytes_io::{push_u16_le, push_u64_le, read_u16_at, read_u64_at};
use crate::error::{AppError, msg, msg_with_number};
use crate::lz_history::{
    copy_back, last_bytes, lemma_copy_back_len, lemma_copy_from_history, lemma_last_bytes_concat, lemma_match_expands,
    DecodeHistory,
};
use crate::memory_budget::MemoryBudget;
use crate::lz_window::{chain_bytes, window_bytes, find_longest_match, same_bytes, HashChain, SlidingWindow, INPUT_READ_SIZE};

verus! {

pub const MIN_MATCH_LEN: usize = 3;
pub const MAX_CHAIN_LEN: usize = 64;
pub const MAX_LENGTH: usize = 255;
pub const TAG_LITERAL: u8 = 0;
pub const TAG_MATCH_WITH_LITERAL: u8 = 1;
pub const TAG_MATCH_AT_EOF: u8 = 2;
pub const WINDOW_SIZE: usize = 65535;
pub const LOOKAHEAD_SIZE: usize = 255;

/// Decoding the tokens from byte `p` of `s` after `out`; decoding stops once
/// `size` bytes are out. `None` for a damaged stream.
pub open spec fn lz77_tokens(s: Seq<u8>, p: int, out: Seq<u8>, size: nat) -> Option<Seq<u8>>
    decreases s.len() - p,
{
    if out.len() >= size {
        Some(out)
    } else if p < 0 || p >= s.len() {
        None
    } else if s[p] == TAG_LITERAL {
        if p + 2 > s.len() {
            None
        } else {
            lz77_tokens(s, p + 2, out.push(s[p + 1]), size)
        }
    } else if s[p] == TAG_MATCH_WITH_LITERAL || s[p] == TAG_MATCH_AT_EOF {
        let k: int = if s[p] == TAG_MATCH_WITH_LITERAL { 5 } else { 4 };
        if p + k > s.len() {
            None
        } else {
            let offset = spec_u16_from_le_bytes(s.subrange(p + 1, p + 3)) as int;
            let copied = copy_back(out, offset, s[p + 3] as nat);
            if offset == 0 || offset > out.len() || offset > WINDOW_SIZE {
                None
            } else if s[p] == TAG_MATCH_WITH_LITERAL {
                lz77_tokens(s, p + 5, copied.push(s[p + 4]), size)
            } else {
                lz77_tokens(s, p + 4, copied, size)
            }
        }
    } else {
        None
    }
}

/// The original size announced by the stream header.
pub open spec fn lz77_size(s: Seq<u8>) -> nat {
    spec_u64_from_le_bytes(s.subrange(0, 8)) as nat
}

/// What decompressing `s` gives; `None` for a damaged stream.
pub open spec fn lz77_decode_spec(s: Seq<u8>) -> Option<Seq<u8>> {
    if s.len() < 8 {
        None
    } else {
        lz77_tokens(s, 8, seq![], lz77_size(s))
    }
}

/// The bytes of a copy token, with the literal that follows it if any.
pub open spec fn match_token(offset: u16, length: u8, literal: Option<u8>) -> Seq<u8> {
    match literal {
        Some(b) => seq![TAG_MATCH_WITH_LITERAL] + spec_u16_to_le_bytes(offset) + seq![length, b],
        None => seq![TAG_MATCH_AT_EOF] + spec_u16_to_le_bytes(offset) + seq![length],
    }
}

pub struct Lz77Compressor;

fn push_literal_token(buf: &mut Vec<u8>, literal: u8)
    ensures
        final(buf)@ == old(buf)@ + seq![TAG_LITERAL, literal],
{
    buf.push(TAG_LITERAL);
    buf.push(literal);
    proof {
        assert(final(buf)@ =~= old(buf)@ + seq![TAG_LITERAL, literal]);
    }
}

fn push_match_token(buf: &mut Vec<u8>, offset: usize, length: usize, literal: Option<u8>)
    requires
        offset <= 65535,
        length <= 255,
    ensures
        final(buf)@ == old(buf)@ + match_token(offset as u16, length as u8, literal),
{
    match literal {
        Some(byte) => {
            buf.push(TAG_MATCH_WITH_LITERAL);
            push_u16_le(buf, offset as u16);
            buf.push(length as u8);
            buf.push(byte);
        },
        None => {
            buf.push(TAG_MATCH_AT_EOF);
            push_u16_le(buf, offset as u16);
            buf.push(length as u8);
        },
    }
    proof {
        assert(final(buf)@ =~= old(buf)@ + match_token(offset as u16, length as u8, literal));
    }
}

/// Decoding a literal token at `q`.
proof fn lemma_literal_step(s: Seq<u8>, q: int, out: Seq<u8>, size: nat, b: u8)
    requires
        0 <= q,
        q + 2 <= s.len(),
        s[q] == TAG_LITERAL,
        s[q + 1] == b,
        out.len() < size,
    ensures
        lz77_tokens(s, q, out, size) == lz77_tokens(s, q + 2, out.push(b), size),
{
}

/// Decoding a copy token at `q`.
proof fn lemma_match_step(s: Seq<u8>, q: int, out: Seq<u8>, size: nat, offset: u16, length: u8, literal: Option<u8>)
    requires
        0 <= q,
        q + match_token(offset, length, literal).len() <= s.len(),
        s.subrange(q, q + match_token(offset, length, literal).len()) == match_token(offset, length, literal),
        1 <= offset <= out.len(),
        out.len() < size,
    ensures
        lz77_tokens(s, q, out, size) == lz77_tokens(
            s,
            q + match_token(offset, length, literal).len(),
            match literal {
                Some(b) => copy_back(out, offset as int, length as nat).push(b),
                None => copy_back(out, offset as int, length as nat),
            },
            size,
        ),
{
    let tb = match_token(offset, length, literal);
    lemma_auto_spec_u16_to_from_le_bytes();
    let le = spec_u16_to_le_bytes(offset);
    assert(le.len() == 2);
    assert(s[q] == tb[0]);
    assert(s[q + 1] == tb[1] && tb[1] == le[0]);
    assert(s[q + 2] == tb[2] && tb[2] == le[1]);
    assert(s[q + 3] == tb[3]);
    assert(s.subrange(q + 1, q + 3) =~= le);
    if literal is Some {
        assert(s[q + 4] == tb[4]);
    }
}

/// The compressor's output so far decodes, whatever follows it, to the data
/// up to `pos` and then goes on from its own end.
spec fn coded(out: Seq<u8>, d: Seq<u8>, pos: int) -> bool {
    &&& 8 <= out.len()
    &&& out.subrange(0, 8) == spec_u64_to_le_bytes(d.len() as u64)
    &&& 0 <= pos <= d.len()
    &&& forall|t: Seq<u8>| #[trigger] lz77_tokens(out + t, 8, seq![], d.len()) == lz77_tokens(out + t, out.len() as int, d.take(pos), d.len())
}

/// Appending the token `tb`, which decodes after the data up to `pos` to the
/// data up to `np`, keeps the output coded.
proof fn lemma_coded_append(out: Seq<u8>, tb: Seq<u8>, d: Seq<u8>, pos: int, np: int)
    requires
        coded(out, d, pos),
        pos < np <= d.len(),
        forall|t: Seq<u8>| #[trigger] lz77_tokens(out + tb + t, out.len() as int, d.take(pos), d.len())
            == lz77_tokens(out + tb + t, (out.len() + tb.len()) as int, d.take(np), d.len()),
    ensures
        coded(out + tb, d, np),
{
    assert((out + tb).subrange(0, 8) =~= out.subrange(0, 8));
    assert forall|t: Seq<u8>| #[trigger] lz77_tokens((out + tb) + t, 8, seq![], d.len()) == lz77_tokens(
        (out + tb) + t,
        (out + tb).len() as int,
        d.take(np),
        d.len(),
    ) by {
        assert(out + (tb + t) =~= (out + tb) + t);
        assert(lz77_tokens(out + (tb + t), 8, seq![], d.len()) == lz77_tokens(out + (tb + t), out.len() as int, d.take(pos), d.len()));
        assert(lz77_tokens(out + tb + t, out.len() as int, d.take(pos), d.len()) == lz77_tokens(out + tb + t, (out.len() + tb.len()) as int, d.take(np), d.len()));
    }
}

/// At position `q` the data repeats its previous byte for three bytes: a
/// copy from one byte back is there to take.
pub open spec fn run_at(d: Seq<u8>, q: int) -> bool {
    q > 0 && q + 3 <= d.len() && same_bytes(d, q - 1, q, 3)
}

/// A reference of `len` bytes at `q` is at least as long as every copy
/// from one byte back that starts there, up to the longest reference.
pub open spec fn covers_runs(d: Seq<u8>, q: int, len: int) -> bool {
    forall|l: int|
        MIN_MATCH_LEN <= l <= MAX_LENGTH && q > 0 && q + l <= d.len() && #[trigger] same_bytes(d, q - 1, q, l)
            ==> len >= l
}

/// Walking the tokens of `s` from byte `p`, with `done` bytes of `d` already
/// decoded: every literal token stands where no copy from one byte back is
/// there to take, and every reference is at least as long as such a copy.
pub open spec fn choices_justified(s: Seq<u8>, p: int, done: nat, d: Seq<u8>) -> bool
    decreases s.len() - p,
{
    if done >= d.len() || p < 0 || p >= s.len() {
        true
    } else if s[p] == TAG_LITERAL {
        p + 2 <= s.len() ==> !run_at(d, done as int) && choices_justified(s, p + 2, done + 1, d)
    } else if s[p] == TAG_MATCH_WITH_LITERAL {
        p + 5 <= s.len() ==> covers_runs(d, done as int, s[p + 3] as int) && choices_justified(
            s,
            p + 5,
            (done + s[p + 3] + 1) as nat,
            d,
        )
    } else if s[p] == TAG_MATCH_AT_EOF {
        p + 4 <= s.len() ==> covers_runs(d, done as int, s[p + 3] as int) && choices_justified(
            s,
            p + 4,
            (done + s[p + 3]) as nat,
            d,
        )
    } else {
        true
    }
}

/// The compressor's output so far justifies its literals, whatever follows it.
spec fn justified_so_far(out: Seq<u8>, d: Seq<u8>, pos: nat) -> bool {
    forall|t: Seq<u8>| #[trigger] choices_justified(out + t, 8, 0, d) == choices_justified(out + t, out.len() as int, pos, d)
}

proof fn lemma_justified_append(out: Seq<u8>, tb: Seq<u8>, d: Seq<u8>, pos: nat, np: nat)
    requires
        justified_so_far(out, d, pos),
        forall|t: Seq<u8>| #[trigger] choices_justified(out + tb + t, out.len() as int, pos, d)
            == choices_justified(out + tb + t, (out.len() + tb.len()) as int, np, d),
    ensures
        justified_so_far(out + tb, d, np),
{
    assert forall|t: Seq<u8>| #[trigger] choices_justified((out + tb) + t, 8, 0, d) == choices_justified(
        (out + tb) + t,
        (out + tb).len() as int,
        np,
        d,
    ) by {
        assert(out + (tb + t) =~= (out + tb) + t);
        assert(choices_justified(out + (tb + t), 8, 0, d) == choices_justified(out + (tb + t), out.len() as int, pos, d));
    }
}

/// The bytes the compressor takes from the memory budget while it runs: its
/// window and its hash chains.
pub open spec fn lz77_memory() -> int {
    window_bytes(WINDOW_SIZE as nat, LOOKAHEAD_SIZE as nat) + chain_bytes(WINDOW_SIZE as nat) as int
}

/// The window and the chains as the compressor keeps them at `pos`.
spec fn window_ready(source: Seq<u8>, window: SlidingWindow, chain: HashChain, pos: int) -> bool {
    &&& source.len() <= u64::MAX
    &&& window.holds(source)
    &&& window.spec_window_size() == WINDOW_SIZE
    &&& window.spec_capacity() == WINDOW_SIZE + INPUT_READ_SIZE + LOOKAHEAD_SIZE
    &&& window.base() <= pos <= window.end()
    &&& (window.base() == 0 || window.base() + WINDOW_SIZE <= pos)
    &&& chain.wf()
    &&& chain.spec_window_size() == WINDOW_SIZE
}

impl Lz77Compressor {
    /// Compresses `data` into the LZ77 stream.
    pub fn compress(&self, data: &[u8], budget: &mut MemoryBudget) -> (r: Result<Vec<u8>, AppError>)
        ensures
            r is Err <==> old(budget).available < lz77_memory(),
            r matches Err(e) ==> e is Compression,
            final(budget).available == old(budget).available,
            r matches Ok(out) ==> lz77_decode_spec(out@) == Some(data@)
                && out@.subrange(0, 8) == spec_u64_to_le_bytes(data@.len() as u64)
                && choices_justified(out@, 8, 0, data@),
    {
        let ghost d = data@;
        let n = data.len() as u64;
        let mut out: Vec<u8> = Vec::new();
        push_u64_le(&mut out, n);
        let mut window = match SlidingWindow::new(WINDOW_SIZE, LOOKAHEAD_SIZE, budget) {
            Ok(w) => w,
            Err(e) => {
                return Err(e);
            },
        };
        let mut chain = match HashChain::new(WINDOW_SIZE, budget) {
            Ok(c) => c,
            Err(e) => {
                window.release(budget);
                return Err(e);
            },
        };
        let mut pos: u64 = 0;
        proof {
            lemma_auto_spec_u64_to_from_le_bytes();
            assert(window.contents() =~= d.subrange(0, 0));
            assert(out@ =~= spec_u64_to_le_bytes(n));
            assert(out@.subrange(0, 8) =~= out@);
            assert(d.take(0) =~= Seq::<u8>::empty());
            assert forall|t: Seq<u8>| #[trigger] lz77_tokens(out@ + t, 8, seq![], d.len()) == lz77_tokens(out@ + t, out@.len() as int, d.take(0), d.len()) by {}
            assert(justified_so_far(out@, d, 0));
        }
        while pos < n
            invariant
                d == data@,
                n == d.len(),
                window_ready(d, window, chain, pos as int),
                coded(out@, d, pos as int),
                justified_so_far(out@, d, pos as nat),
            decreases d.len() - pos,
        {
            let ready = window.ensure_available(data, pos, LOOKAHEAD_SIZE + 2);
            let available = window.available_after(pos);
            proof {
                assert(available > 0);
            }
            let max_len = if available < LOOKAHEAD_SIZE { available } else { LOOKAHEAD_SIZE };
            let (offset, length) = find_longest_match(
                &window, &chain, pos, WINDOW_SIZE as u64, max_len, MIN_MATCH_LEN, MAX_CHAIN_LEN, Ghost(d),
            );
            let advance: u64 = if length > 0 { length as u64 } else { 1 };
            let end: u64 = pos + advance;
            let mut i: u64 = pos;
            while i < end
                invariant
                    pos <= i <= end,
                    end <= window.end(),
                    window.end() <= u64::MAX,
                    window.holds(d),
                    window.base() <= pos,
                    chain.wf(),
                    chain.spec_window_size() == WINDOW_SIZE,
                decreases end - i,
            {
                if window.available_after(i) >= 3 {
                    chain.insert(&window, i);
                }
                i += 1;
            }
            let ghost before = out@;
            if length > 0 {
                let next_pos = pos + length as u64;
                proof {
                    assert forall|l: int|
                        MIN_MATCH_LEN <= l <= MAX_LENGTH && pos > 0 && pos + l <= d.len() && #[trigger] same_bytes(
                            d,
                            pos - 1,
                            pos as int,
                            l,
                        ) implies length >= l by {
                        assert(l <= max_len);
                    }
                    assert(covers_runs(d, pos as int, length as int));
                    lemma_match_expands(d, pos as int, offset as int, length as nat);
                    lemma_copy_back_len(d.take(pos as int), offset as int, length as nat);
                }
                if window.available_after(next_pos) > 0 {
                    let b = window.byte_at(next_pos);
                    push_match_token(&mut out, offset, length, Some(b));
                    proof {
                        let tb = match_token(offset as u16, length as u8, Some(b));
                        assert(b == d[next_pos as int]);
                        assert(d.take(next_pos as int).push(b) =~= d.take(next_pos + 1));
                        assert forall|t: Seq<u8>| #[trigger] lz77_tokens(before + tb + t, before.len() as int, d.take(pos as int), d.len())
                            == lz77_tokens(before + tb + t, (before.len() + tb.len()) as int, d.take(next_pos + 1), d.len()) by {
                            assert((before + tb + t).subrange(before.len() as int, (before.len() + tb.len()) as int) =~= tb);
                            lemma_match_step(before + tb + t, before.len() as int, d.take(pos as int), d.len(), offset as u16, length as u8, Some(b));
                        }
                        lemma_coded_append(before, tb, d, pos as int, next_pos + 1);
                        assert forall|t: Seq<u8>| #[trigger] choices_justified(before + tb + t, before.len() as int, pos as nat, d)
                            == choices_justified(before + tb + t, (before.len() + tb.len()) as int, (next_pos + 1) as nat, d) by {
                            let s2 = before + tb + t;
                            lemma_auto_spec_u16_to_from_le_bytes();
                            assert(spec_u16_to_le_bytes(offset as u16).len() == 2);
                            assert(tb.len() == 5 && tb[3] == length as u8);
                            assert(s2[before.len() as int] == TAG_MATCH_WITH_LITERAL);
                            assert(s2[before.len() + 3int] == tb[3]);
                        }
                        lemma_justified_append(before, tb, d, pos as nat, (next_pos + 1) as nat);
                    }
                    pos = next_pos + 1;
                } else {
                    push_match_token(&mut out, offset, length, None);
                    proof {
                        let tb = match_token(offset as u16, length as u8, None);
                        assert forall|t: Seq<u8>| #[trigger] lz77_tokens(before + tb + t, before.len() as int, d.take(pos as int), d.len())
                            == lz77_tokens(before + tb + t, (before.len() + tb.len()) as int, d.take(next_pos as int), d.len()) by {
                            assert((before + tb + t).subrange(before.len() as int, (before.len() + tb.len()) as int) =~= tb);
                            lemma_match_step(before + tb + t, before.len() as int, d.take(pos as int), d.len(), offset as u16, length as u8, None);
                        }
                        lemma_coded_append(before, tb, d, pos as int, next_pos as int);
                        assert forall|t: Seq<u8>| #[trigger] choices_justified(before + tb + t, before.len() as int, pos as nat, d)
                            == choices_justified(before + tb + t, (before.len() + tb.len()) as int, next_pos as nat, d) by {
                            let s2 = before + tb + t;
                            lemma_auto_spec_u16_to_from_le_bytes();
                            assert(spec_u16_to_le_bytes(offset as u16).len() == 2);
                            assert(tb.len() == 4 && tb[3] == length as u8);
                            assert(s2[before.len() as int] == TAG_MATCH_AT_EOF);
                            assert(s2[before.len() + 3int] == tb[3]);
                        }
                        lemma_justified_append(before, tb, d, pos as nat, next_pos as nat);
                    }
                    pos = next_pos;
                }
            } else {
                let b = window.byte_at(pos);
                push_literal_token(&mut out, b);
                proof {
                    let tb = seq![TAG_LITERAL, b];
                    assert(b == d[pos as int]);
                    assert(d.take(pos as int).push(b) =~= d.take(pos + 1));
                    assert forall|t: Seq<u8>| #[trigger] lz77_tokens(before + tb + t, before.len() as int, d.take(pos as int), d.len())
                        == lz77_tokens(before + tb + t, (before.len() + tb.len()) as int, d.take(pos + 1), d.len()) by {
                        lemma_literal_step(before + tb + t, before.len() as int, d.take(pos as int), d.len(), b);
                    }
                    lemma_coded_append(before, tb, d, pos as int, pos + 1);
                    assert(!run_at(d, pos as int));
                    assert forall|t: Seq<u8>| #[trigger] choices_justified(before + tb + t, before.len() as int, pos as nat, d)
                        == choices_justified(before + tb + t, (before.len() + tb.len()) as int, (pos + 1) as nat, d) by {
                        let s2 = before + tb + t;
                        assert(s2[before.len() as int] == TAG_LITERAL);
                    }
                    lemma_justified_append(before, tb, d, pos as nat, (pos + 1) as nat);
                }
                pos += 1;
            }
            window.trim_if_needed(pos);
        }
        proof {
            assert(out@ + Seq::<u8>::empty() =~= out@);
            assert(d.take(d.len() as int) =~= d);
            assert(lz77_tokens(out@ + Seq::<u8>::empty(), 8, seq![], d.len()) == lz77_tokens(out@ + Seq::<u8>::empty(), out@.len() as int, d.take(pos as int), d.len()));
            assert(pos == d.len());
            assert(lz77_tokens(out@, out@.len() as int, d, d.len()) == Some(d));
            lemma_auto_spec_u64_to_from_le_bytes();
            assert(lz77_size(out@) == d.len());
            assert(lz77_decode_spec(out@) == Some(d));
            assert(choices_justified(out@ + Seq::<u8>::empty(), 8, 0, d) == choices_justified(out@ + Seq::<u8>::empty(), out@.len() as int, pos as nat, d));
        }
        chain.release(budget);
        window.release(budget);
        Ok(out)
    }

    /// Decompresses an LZ77 stream.
    pub fn decompress(&self, data: &[u8]) -> (r: Result<Vec<u8>, AppError>)
        ensures
            r is Ok <==> lz77_decode_spec(data@) is Some,
            r matches Ok(out) ==> lz77_decode_spec(data@) == Some(out@),
            r matches Err(e) ==> e is CorruptArchive,
    {
        let ghost s = data@;
        if data.len() < 8 {
            return Err(AppError::CorruptArchive(msg("LZ: неожиданный конец потока при чтении токена")));
        }
        let original_size: u64 = read_u64_at(data, 0);
        let mut history = DecodeHistory::new(WINDOW_SIZE);
        let mut out: Vec<u8> = Vec::new();
        let mut p: usize = 8;
        let ghost size = original_size as nat;
        proof {
            assert(last_bytes(out@, WINDOW_SIZE as nat) =~= Seq::<u8>::empty());
        }
        while (out.len() as u64) < original_size
            invariant
                s == data@,
                size == original_size,
                size == lz77_size(s),
                8 <= p <= s.len(),
                lz77_tokens(s, p as int, out@, size) == lz77_tokens(s, 8, seq![], size),
                history.wf(),
                history.capacity() == WINDOW_SIZE,
                history.bytes() == last_bytes(out@, WINDOW_SIZE as nat),
            decreases s.len() - p,
        {
            if p >= data.len() {
                return Err(AppError::CorruptArchive(msg("LZ: неожиданный конец потока при чтении токена")));
            }
            let tag = data[p];
            if tag == TAG_LITERAL {
                if data.len() - p < 2 {
                    return Err(AppError::CorruptArchive(msg("LZ: неожиданный конец потока при чтении токена")));
                }
                let literal = data[p + 1];
                let ghost before = out@;
                history.push(literal);
                out.push(literal);
                proof {
                    lemma_last_bytes_concat(before, seq![literal], WINDOW_SIZE as nat);
                    assert(before + seq![literal] =~= before.push(literal));
                    assert(last_bytes(before, WINDOW_SIZE as nat) + seq![literal] =~= last_bytes(before, WINDOW_SIZE as nat).push(literal));
                }
                p += 2;
            } else if tag == TAG_MATCH_WITH_LITERAL || tag == TAG_MATCH_AT_EOF {
                let k: usize = if tag == TAG_MATCH_WITH_LITERAL { 5 } else { 4 };
                if data.len() - p < k {
                    return Err(AppError::CorruptArchive(msg("LZ: неожиданный конец потока при чтении токена")));
                }
                let offset = read_u16_at(data, p + 1) as usize;
                let length = data[p + 3] as usize;
                let ghost before = out@;
                proof {
                    assert(history.bytes().len() == if before.len() <= WINDOW_SIZE { before.len() } else { WINDOW_SIZE as nat });
                }
                let copied = history.copy_match(offset, length, &mut out);
                if copied.is_err() {
                    return Err(AppError::CorruptArchive(msg("LZ77: Некорректный offset ссылки назад")));
                }
                proof {
                    lemma_copy_from_history(before, offset as int, length as nat, WINDOW_SIZE as nat);
                    lemma_copy_back_len(before, offset as int, length as nat);
                }
                if tag == TAG_MATCH_WITH_LITERAL {
                    let literal = data[p + 4];
                    let ghost mid = out@;
                    history.push(literal);
                    out.push(literal);
                    proof {
                        lemma_last_bytes_concat(mid, seq![literal], WINDOW_SIZE as nat);
                        assert(mid + seq![literal] =~= mid.push(literal));
                        assert(last_bytes(mid, WINDOW_SIZE as nat) + seq![literal] =~= last_bytes(mid, WINDOW_SIZE as nat).push(literal));
                    }
                    p += 5;
                } else {
                    p += 4;
                }
            } else {
                return Err(AppError::CorruptArchive(msg_with_number("LZ77: Неизвестный тег токена: ", tag as u64)));
            }
        }
        Ok(out)
    }
}

} // verus!
