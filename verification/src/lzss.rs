//! The LZSS compressor: greedy matching with a one-step lazy look,
//! literal runs, and a stored fallback for data that does not compress.
use vstd::prelude::*;
use vstd::bytes::*;
use crate::bytes_io::{append_slice, push_u16_le, push_u64_le, read_u16_at, read_u64_at};
use crate::error::{AppError, msg, msg_with_number};
use crate::ids::CompressionId;
use crate::lz_history::{
    last_bytes, lemma_copy_back_len, lemma_copy_from_history, lemma_last_bytes_concat, lemma_match_expands,
    DecodeHistory,
};
use crate::memory_budget::MemoryBudget;
use crate::lz_window::{
    chain_bytes, window_bytes, find_longest_match, same_bytes, valid_match, HashChain, SlidingWindow, INPUT_READ_SIZE,
};
use crate::lzss_format::{
    apply_token, expand, group_bodies, group_bytes, group_flags, lemma_decode_serialized,
    lemma_flags_literal, lemma_flags_reference, lemma_serialize_append, lzss_decode_spec,
    lzss_size, lzss_tokens, serialize, token_body, token_ok, tokens_ok, LzToken, MAX_LENGTH,
    MIN_MATCH_LEN, MODE_COMPRESSED, MODE_STORED, WINDOW_SIZE,
};

verus! {

pub const MAX_CHAIN_LEN: usize = 125;
pub const LOOKAHEAD_SIZE: usize = 258;
pub const MAX_LAZY_MATCH_LEN: usize = 32;
pub const FULL_INSERT_MATCH_LEN: usize = 32;
pub const TAIL_INSERTIONS: usize = 8;
pub const SAMPLE_BLOCK_SIZE: usize = 32768;
pub const MIN_LITERAL_RUN_LEN: usize = 34;

pub struct LzssCompressor;

/// The `len` bytes at `q` repeat the byte before them: a match one byte
/// back, inside the data.
pub open spec fn run_at(d: Seq<u8>, q: int, len: int) -> bool {
    q > 0 && q + len <= d.len() && same_bytes(d, q - 1, q, len)
}

/// Some copy of the `len` bytes at `q` starts within the window behind `q`.
pub open spec fn match_at(d: Seq<u8>, q: int, len: int) -> bool {
    exists|o: int| #[trigger] valid_match(d, q, o, len, WINDOW_SIZE as int)
}

/// A literal at `q` is one the compressor may write: no run of the
/// shortest match length starts there, or the run is shorter than the lazy
/// limit and a longer match starts one byte further on.
pub open spec fn literal_justified(d: Seq<u8>, q: int) -> bool {
    ||| !run_at(d, q, MIN_MATCH_LEN as int)
    ||| !run_at(d, q, MAX_LAZY_MATCH_LEN as int) && match_at(d, q + 1, MIN_MATCH_LEN + 1)
}

/// The `n` bytes from `q` on may all be literals.
pub open spec fn literals_from(d: Seq<u8>, q: int, n: int) -> bool {
    forall|i: int| 0 <= i < n ==> #[trigger] literal_justified(d, q + i)
}

/// A reference of `len` bytes at `q` is at least as long as every run there.
pub open spec fn match_justified(d: Seq<u8>, q: int, len: int) -> bool {
    forall|l: int| MIN_MATCH_LEN <= l <= MAX_LENGTH && #[trigger] run_at(d, q, l) ==> len >= l
}

/// Token `t`, standing for the data from `q` on, is one the compressor may write.
pub open spec fn token_justified(d: Seq<u8>, q: int, t: LzToken) -> bool {
    match t {
        LzToken::Literal(_) => literal_justified(d, q),
        LzToken::Match(_, l) => match_justified(d, q, l),
        LzToken::Run(bs) => literals_from(d, q, bs.len() as int),
    }
}

/// Every token of `ts` is one the compressor may write where it stands.
pub open spec fn tokens_justified(d: Seq<u8>, ts: Seq<LzToken>) -> bool
    decreases ts.len(),
{
    if ts.len() == 0 {
        true
    } else {
        tokens_justified(d, ts.drop_last()) && token_justified(d, expand(seq![], ts.drop_last()).len() as int, ts.last())
    }
}

/// The bytes `n` pending literals would take: one run, or single literals
/// with their share of flag bytes.
pub open spec fn literals_cost(n: int) -> int {
    if n == 0 {
        0
    } else if n >= MIN_LITERAL_RUN_LEN {
        5 + n
    } else {
        n + (n + 7) / 8
    }
}

/// The size of a coding: the whole groups `done`, the open group `cur`
/// and the pending literals `pend`.
pub open spec fn coding_size(done: Seq<LzToken>, cur: Seq<LzToken>, pend: Seq<u8>) -> int {
    serialize(done).len() + (if cur.len() > 0 { 1 + group_bodies(cur).len() } else { 0 }) + literals_cost(pend.len() as int)
}

/// `done`, `cur` and `pend` code the first `k` bytes of `d`, where `k` covers
/// the first block (or all of shorter data), with tokens the compressor may write.
pub open spec fn sample_coding(d: Seq<u8>, k: int, done: Seq<LzToken>, cur: Seq<LzToken>, pend: Seq<u8>) -> bool {
    &&& (if d.len() < SAMPLE_BLOCK_SIZE { d.len() as int } else { SAMPLE_BLOCK_SIZE as int }) <= k <= d.len()
    &&& done.len() % 8 == 0
    &&& cur.len() < 8
    &&& tokens_ok(seq![], done + cur)
    &&& expand(seq![], done + cur) + pend == d.take(k)
    &&& pend.len() < 65535
    &&& tokens_justified(d, done + cur)
    &&& literals_from(d, k - pend.len(), pend.len() as int)
}

/// The compressor's choice for `d`: the data as it is when a coding of the
/// first block takes at least four fifths of it, the compressed stream when
/// one takes less.
pub open spec fn lzss_chose(d: Seq<u8>, id: CompressionId) -> bool {
    &&& id == CompressionId::NoCompression ==> d.len() > 0 && exists|k: int, done: Seq<LzToken>, cur: Seq<LzToken>, pend: Seq<u8>|
        #[trigger] sample_coding(d, k, done, cur, pend) && 5 * coding_size(done, cur, pend) >= 4 * k
    &&& id == CompressionId::LZSS ==> d.len() == 0 || exists|k: int, done: Seq<LzToken>, cur: Seq<LzToken>, pend: Seq<u8>|
        #[trigger] sample_coding(d, k, done, cur, pend) && 5 * coding_size(done, cur, pend) < 4 * k
}

/// The group being filled: its flag byte, its token count and the token
/// bodies written so far.
struct TokenGroupWriter {
    flags: u8,
    count: u8,
    bodies: Vec<u8>,
}

/// The writer holds the open group `cur`, and `out` the complete groups of
/// `done`.
spec fn emitted(w: TokenGroupWriter, out: Seq<u8>, done: Seq<LzToken>, cur: Seq<LzToken>) -> bool {
    &&& cur.len() < 8
    &&& w.count == cur.len()
    &&& w.flags == group_flags(cur)
    &&& w.bodies@ == group_bodies(cur)
    &&& w.bodies@.len() <= cur.len() * 65539
    &&& out == serialize(done)
    &&& done.len() % 8 == 0
}

impl TokenGroupWriter {
    fn new() -> (r: TokenGroupWriter)
        ensures
            emitted(r, seq![], seq![], seq![]),
    {
        TokenGroupWriter { flags: 0, count: 0, bodies: Vec::new() }
    }

    /// Counts the token just added to the open group `cur`; a full group is
    /// written out.
    fn advance(
        &mut self,
        out: &mut Vec<u8>,
        Ghost(done): Ghost<Seq<LzToken>>,
        Ghost(cur): Ghost<Seq<LzToken>>,
    ) -> (r: Ghost<(Seq<LzToken>, Seq<LzToken>)>)
        requires
            1 <= cur.len() <= 8,
            old(self).count + 1 == cur.len(),
            old(self).flags == group_flags(cur),
            old(self).bodies@ == group_bodies(cur),
            old(self).bodies@.len() <= cur.len() * 65539,
            old(out)@ == serialize(done),
            done.len() % 8 == 0,
        ensures
            emitted(*final(self), final(out)@, r@.0, r@.1),
            r@.0 + r@.1 == done + cur,
    {
        self.count = self.count + 1;
        if self.count == 8 {
            self.flush(out, Ghost(done), Ghost(cur));
            proof {
                assert(done + cur + Seq::<LzToken>::empty() =~= done + cur);
            }
            Ghost((done + cur, Seq::<LzToken>::empty()))
        } else {
            Ghost((done, cur))
        }
    }

    /// Writes out the open group, if it has tokens.
    fn flush(&mut self, out: &mut Vec<u8>, Ghost(done): Ghost<Seq<LzToken>>, Ghost(cur): Ghost<Seq<LzToken>>)
        requires
            cur.len() <= 8,
            old(self).count == cur.len(),
            old(self).flags == group_flags(cur),
            old(self).bodies@ == group_bodies(cur),
            old(out)@ == serialize(done),
            done.len() % 8 == 0,
        ensures
            final(self).count == 0,
            final(self).flags == 0,
            final(self).bodies@ == Seq::<u8>::empty(),
            final(out)@ == serialize(done + cur),
    {
        if self.count > 0 {
            out.push(self.flags);
            append_slice(out, self.bodies.as_slice());
            self.flags = 0;
            self.count = 0;
            self.bodies = Vec::new();
            proof {
                lemma_serialize_append(done, cur);
                assert(serialize(done) + group_bytes(cur) =~= serialize(done).push(group_flags(cur)) + group_bodies(cur));
            }
        } else {
            proof {
                assert(done + cur =~= done);
            }
        }
        proof {
            assert(group_flags(Seq::<LzToken>::empty()) == 0);
            assert(group_bodies(Seq::<LzToken>::empty()) =~= Seq::<u8>::empty());
        }
    }

    fn push_literal(
        &mut self,
        byte: u8,
        out: &mut Vec<u8>,
        Ghost(done): Ghost<Seq<LzToken>>,
        Ghost(cur): Ghost<Seq<LzToken>>,
    ) -> (r: Ghost<(Seq<LzToken>, Seq<LzToken>)>)
        requires
            emitted(*old(self), old(out)@, done, cur),
        ensures
            emitted(*final(self), final(out)@, r@.0, r@.1),
            r@.0 + r@.1 == done + cur.push(LzToken::Literal(byte)),
    {
        self.bodies.push(byte);
        proof {
            lemma_flags_literal(cur, byte);
            assert(self.bodies@ =~= group_bodies(cur) + seq![byte]);
            assert(self.bodies@.len() <= (cur.len() + 1) * 65539);
        }
        self.advance(out, Ghost(done), Ghost(cur.push(LzToken::Literal(byte))))
    }

    fn push_match(
        &mut self,
        offset: usize,
        length: usize,
        out: &mut Vec<u8>,
        Ghost(done): Ghost<Seq<LzToken>>,
        Ghost(cur): Ghost<Seq<LzToken>>,
    ) -> (r: Ghost<(Seq<LzToken>, Seq<LzToken>)>)
        requires
            emitted(*old(self), old(out)@, done, cur),
            1 <= offset <= 65535,
            3 <= length <= 258,
        ensures
            emitted(*final(self), final(out)@, r@.0, r@.1),
            r@.0 + r@.1 == done + cur.push(LzToken::Match(offset as int, length as int)),
    {
        let t = Ghost(LzToken::Match(offset as int, length as int));
        proof {
            lemma_flags_reference(cur, t@);
        }
        self.flags = self.flags | (1u8 << self.count);
        push_u16_le(&mut self.bodies, offset as u16);
        self.bodies.push((length - MIN_MATCH_LEN) as u8);
        proof {
            lemma_auto_spec_u16_to_from_le_bytes();
            assert(self.bodies@ =~= group_bodies(cur) + token_body(t@));
            assert(self.bodies@.len() <= (cur.len() + 1) * 65539);
        }
        self.advance(out, Ghost(done), Ghost(cur.push(t@)))
    }

    /// Writes `bytes` as one literal run.
    fn push_literal_run(
        &mut self,
        bytes: &[u8],
        out: &mut Vec<u8>,
        Ghost(done): Ghost<Seq<LzToken>>,
        Ghost(cur): Ghost<Seq<LzToken>>,
    ) -> (r: Ghost<(Seq<LzToken>, Seq<LzToken>)>)
        requires
            emitted(*old(self), old(out)@, done, cur),
            1 <= bytes@.len() <= 65535,
        ensures
            emitted(*final(self), final(out)@, r@.0, r@.1),
            r@.0 + r@.1 == done + cur.push(LzToken::Run(bytes@)),
    {
        let t = Ghost(LzToken::Run(bytes@));
        proof {
            lemma_flags_reference(cur, t@);
        }
        self.flags = self.flags | (1u8 << self.count);
        push_u16_le(&mut self.bodies, 0);
        push_u16_le(&mut self.bodies, bytes.len() as u16);
        append_slice(&mut self.bodies, bytes);
        proof {
            lemma_auto_spec_u16_to_from_le_bytes();
            assert(self.bodies@ =~= group_bodies(cur) + token_body(t@));
            assert(self.bodies@.len() <= (cur.len() + 1) * 65539);
        }
        self.advance(out, Ghost(done), Ghost(cur.push(t@)))
    }

    /// Bytes the open group would take if written now.
    fn pending_len_if_flushed(&self) -> (r: usize)
        requires
            self.bodies@.len() <= 7 * 65539,
        ensures
            r == if self.count > 0 { 1 + self.bodies@.len() } else { 0 },
    {
        if self.count > 0 {
            1 + self.bodies.len()
        } else {
            0
        }
    }
}

/// The bytes a pending literal stretch would take once written: one run
/// (flag share, offset 0, length, bytes), or single literals with their flag bits.
fn pending_literals_cost_estimate(pending: &[u8]) -> (r: usize)
    requires
        pending@.len() <= 65535,
    ensures
        r == if pending@.len() == 0 {
            0
        } else if pending@.len() >= MIN_LITERAL_RUN_LEN {
            5 + pending@.len()
        } else {
            pending@.len() + (pending@.len() + 7) / 8
        },
{
    let n = pending.len();
    if n == 0 {
        0
    } else if n >= MIN_LITERAL_RUN_LEN {
        1 + 2 + 2 + n
    } else {
        n + (n + 7) / 8
    }
}

/// The ghost bookkeeping of the compressor: the tokens written so far
/// (`done` in whole groups, `cur` in the open group) and the pending
/// literals stand for the data up to `pos`, and every token is one the
/// decoder accepts.
spec fn coded_upto(
    d: Seq<u8>,
    pos: int,
    w: TokenGroupWriter,
    out: Seq<u8>,
    pending: Seq<u8>,
    done: Seq<LzToken>,
    cur: Seq<LzToken>,
) -> bool {
    &&& emitted(w, out, done, cur)
    &&& tokens_ok(seq![], done + cur)
    &&& expand(seq![], done + cur) + pending == d.take(pos)
    &&& pending.len() < 65535
    &&& 0 <= pos <= d.len()
    &&& tokens_justified(d, done + cur)
    &&& literals_from(d, pos - pending.len(), pending.len() as int)
}

proof fn lemma_justified_push(d: Seq<u8>, ts: Seq<LzToken>, t: LzToken)
    ensures
        tokens_justified(d, ts.push(t)) == (tokens_justified(d, ts) && token_justified(
            d,
            expand(seq![], ts).len() as int,
            t,
        )),
{
    assert(ts.push(t).drop_last() =~= ts);
}

proof fn lemma_expand_push(ts: Seq<LzToken>, t: LzToken)
    ensures
        expand(seq![], ts.push(t)) == apply_token(expand(seq![], ts), t),
        tokens_ok(seq![], ts) && token_ok(expand(seq![], ts), t) ==> tokens_ok(seq![], ts.push(t)),
{
    assert(ts.push(t).drop_last() =~= ts);
}

/// Writes the pending literals: one run when there are at least
/// `MIN_LITERAL_RUN_LEN` of them, single literals otherwise.
fn flush_pending_literals(
    pending: &mut Vec<u8>,
    group: &mut TokenGroupWriter,
    out_buf: &mut Vec<u8>,
    Ghost(d): Ghost<Seq<u8>>,
    Ghost(pos): Ghost<int>,
    Ghost(done): Ghost<Seq<LzToken>>,
    Ghost(cur): Ghost<Seq<LzToken>>,
) -> (r: Ghost<(Seq<LzToken>, Seq<LzToken>)>)
    requires
        emitted(*old(group), old(out_buf)@, done, cur),
        tokens_ok(seq![], done + cur),
        expand(seq![], done + cur) + old(pending)@ == d.take(pos),
        old(pending)@.len() <= 65535,
        0 <= pos <= d.len(),
        tokens_justified(d, done + cur),
        literals_from(d, pos - old(pending)@.len(), old(pending)@.len() as int),
    ensures
        final(pending)@.len() == 0,
        coded_upto(d, pos, *final(group), final(out_buf)@, final(pending)@, r@.0, r@.1),
{
    let ghost p0 = pending@;
    if pending.len() == 0 {
        return Ghost((done, cur));
    }
    let mut gd = Ghost(done);
    let mut gc = Ghost(cur);
    if pending.len() >= MIN_LITERAL_RUN_LEN {
        let r = group.push_literal_run(pending.as_slice(), out_buf, gd, gc);
        proof {
            lemma_expand_push(done + cur, LzToken::Run(p0));
            lemma_justified_push(d, done + cur, LzToken::Run(p0));
            assert(done + cur.push(LzToken::Run(p0)) =~= (done + cur).push(LzToken::Run(p0)));
        }
        gd = Ghost(r@.0);
        gc = Ghost(r@.1);
    } else {
        let mut i: usize = 0;
        while i < pending.len()
            invariant
                i <= pending@.len(),
                pending@ == p0,
                emitted(*group, out_buf@, gd@, gc@),
                tokens_ok(seq![], gd@ + gc@),
                expand(seq![], gd@ + gc@) + p0.skip(i as int) == d.take(pos),
                tokens_justified(d, gd@ + gc@),
                literals_from(d, pos - p0.len(), p0.len() as int),
                0 <= pos <= d.len(),
            decreases pending@.len() - i,
        {
            let b = pending[i];
            let ghost all = gd@ + gc@;
            let r = group.push_literal(b, out_buf, gd, gc);
            proof {
                lemma_expand_push(all, LzToken::Literal(b));
                lemma_justified_push(d, all, LzToken::Literal(b));
                assert(d.take(pos).len() == pos);
                assert(p0.skip(i as int).len() == p0.len() - i);
                assert(expand(seq![], all).len() == pos - p0.len() + i);
                assert(literal_justified(d, pos - p0.len() + i));
                assert(gd@ + gc@.push(LzToken::Literal(b)) =~= all.push(LzToken::Literal(b)));
                assert(expand(seq![], all).push(b) + p0.skip(i + 1) =~= expand(seq![], all) + p0.skip(i as int));
            }
            gd = Ghost(r@.0);
            gc = Ghost(r@.1);
            i += 1;
        }
    }
    pending.clear();
    proof {
        assert(expand(seq![], gd@ + gc@) + Seq::<u8>::empty() =~= expand(seq![], gd@ + gc@));
        if p0.len() < MIN_LITERAL_RUN_LEN {
            assert(p0.skip(p0.len() as int) =~= Seq::<u8>::empty());
        }
    }
    Ghost((gd@, gc@))
}

/// Writes the pending literals once they fill a run of the longest length.
fn maybe_flush_overflowing_run(
    pending: &mut Vec<u8>,
    group: &mut TokenGroupWriter,
    out_buf: &mut Vec<u8>,
    Ghost(d): Ghost<Seq<u8>>,
    Ghost(pos): Ghost<int>,
    Ghost(done): Ghost<Seq<LzToken>>,
    Ghost(cur): Ghost<Seq<LzToken>>,
) -> (r: Ghost<(Seq<LzToken>, Seq<LzToken>)>)
    requires
        emitted(*old(group), old(out_buf)@, done, cur),
        tokens_ok(seq![], done + cur),
        expand(seq![], done + cur) + old(pending)@ == d.take(pos),
        old(pending)@.len() <= 65535,
        0 <= pos <= d.len(),
        tokens_justified(d, done + cur),
        literals_from(d, pos - old(pending)@.len(), old(pending)@.len() as int),
    ensures
        coded_upto(d, pos, *final(group), final(out_buf)@, final(pending)@, r@.0, r@.1),
{
    if pending.len() >= 65535 {
        flush_pending_literals(pending, group, out_buf, Ghost(d), Ghost(pos), Ghost(done), Ghost(cur))
    } else {
        Ghost((done, cur))
    }
}

/// The bytes the compressor takes from the memory budget while it runs: its
/// window and its hash chains.
pub open spec fn lzss_memory() -> int {
    window_bytes(WINDOW_SIZE as nat, LOOKAHEAD_SIZE as nat) + chain_bytes(WINDOW_SIZE as nat) as int
}

/// The window and the chains as the compressor keeps them at `pos`.
spec fn window_ready(source: Seq<u8>, window: SlidingWindow, chain: HashChain, pos: int) -> bool {
    &&& source.len() <= u64::MAX
    &&& window.holds(source)
    &&& window.spec_window_size() == WINDOW_SIZE
    &&& window.spec_capacity() == WINDOW_SIZE + INPUT_READ_SIZE + LOOKAHEAD_SIZE
    &&& window.base() <= pos <= window.end()
    &&& (window.base() == 0 || window.base() + WINDOW_SIZE <= pos)
    &&& chain.wf()
    &&& chain.spec_window_size() == WINDOW_SIZE
}

/// One step of the compressor at `pos`: a reference where a match of at
/// least three bytes is found (unless the match one byte further on is
/// longer), a pending literal otherwise. Gives the next position, or `None`
/// at the end of the data.
fn compress_step(
    source: &[u8],
    window: &mut SlidingWindow,
    chain: &mut HashChain,
    group: &mut TokenGroupWriter,
    pending: &mut Vec<u8>,
    out_buf: &mut Vec<u8>,
    pos: u64,
    Ghost(done): Ghost<Seq<LzToken>>,
    Ghost(cur): Ghost<Seq<LzToken>>,
) -> (r: (Option<u64>, Ghost<(Seq<LzToken>, Seq<LzToken>)>))
    requires
        window_ready(source@, *old(window), *old(chain), pos as int),
        coded_upto(source@, pos as int, *old(group), old(out_buf)@, old(pending)@, done, cur),
    ensures
        match r.0 {
            None => pos == source@.len() && window_ready(source@, *final(window), *final(chain), pos as int)
                && coded_upto(source@, pos as int, *final(group), final(out_buf)@, final(pending)@, r.1@.0, r.1@.1),
            Some(np) => pos < np <= source@.len() && window_ready(source@, *final(window), *final(chain), np as int)
                && coded_upto(source@, np as int, *final(group), final(out_buf)@, final(pending)@, r.1@.0, r.1@.1),
        },
{
    let ghost d = source@;
    let ready = window.ensure_available(source, pos, LOOKAHEAD_SIZE + 2);
    let available = window.available_after(pos);
    if available == 0 {
        return (None, Ghost((done, cur)));
    }
    let max_len = if available < LOOKAHEAD_SIZE { available } else { LOOKAHEAD_SIZE };
    let (offset, length) = find_longest_match(
        window, chain, pos, WINDOW_SIZE as u64, max_len, MIN_MATCH_LEN, MAX_CHAIN_LEN, Ghost(d),
    );
    proof {
        assert(max_len >= d.len() - pos || max_len == LOOKAHEAD_SIZE);
    }
    chain.insert(window, pos);
    proof {
        assert(window.contents()[pos - window.base()] == d[pos as int]);
    }
    if length >= MIN_MATCH_LEN && length < MAX_LAZY_MATCH_LEN && available > 1 {
        let available_next = window.available_after(pos + 1);
        let max_len_next = if available_next < LOOKAHEAD_SIZE { available_next } else { LOOKAHEAD_SIZE };
        let (offset_next, length_next) = find_longest_match(
            window, chain, pos + 1, WINDOW_SIZE as u64, max_len_next, MIN_MATCH_LEN, MAX_CHAIN_LEN, Ghost(d),
        );
        if length_next > length {
            let b = window.byte_at(pos);
            let ghost p0 = pending@;
            pending.push(b);
            proof {
                assert(d.take(pos as int).push(b) =~= d.take(pos + 1));
                assert(expand(seq![], done + cur) + pending@ =~= d.take(pos + 1));
                if run_at(d, pos as int, MAX_LAZY_MATCH_LEN as int) {
                    assert(same_bytes(d, pos - 1, pos as int, MAX_LAZY_MATCH_LEN as int));
                }
                assert(valid_match(d, pos + 1, offset_next as int, MIN_MATCH_LEN + 1, WINDOW_SIZE as int));
                assert(literal_justified(d, pos as int));
                assert forall|i: int| 0 <= i < pending@.len() implies #[trigger] literal_justified(d, pos + 1 - pending@.len() + i) by {
                    if i < p0.len() {
                        assert(literal_justified(d, pos - p0.len() + i));
                    }
                }
            }
            let r = maybe_flush_overflowing_run(pending, group, out_buf, Ghost(d), Ghost(pos + 1), Ghost(done), Ghost(cur));
            window.trim_if_needed(pos + 1);
            return (Some(pos + 1), r);
        }
    }
    let new_pos: u64;
    let mut result: Ghost<(Seq<LzToken>, Seq<LzToken>)>;
    if length >= MIN_MATCH_LEN {
        let r1 = flush_pending_literals(pending, group, out_buf, Ghost(d), Ghost(pos as int), Ghost(done), Ghost(cur));
        let ghost all = r1@.0 + r1@.1;
        let r2 = group.push_match(offset, length, out_buf, Ghost(r1@.0), Ghost(r1@.1));
        proof {
            let m = LzToken::Match(offset as int, length as int);
            lemma_expand_push(all, m);
            lemma_justified_push(d, all, m);
            assert forall|l: int| MIN_MATCH_LEN <= l <= MAX_LENGTH && #[trigger] run_at(d, pos as int, l) implies length >= l by {
                assert(same_bytes(d, pos - 1, pos as int, l));
            }
            assert(expand(seq![], all).len() == pos);
            assert(expand(seq![], all) + Seq::<u8>::empty() =~= expand(seq![], all));
            lemma_match_expands(d, pos as int, offset as int, length as nat);
            assert(r1@.0 + r1@.1.push(m) =~= all.push(m));
            assert(expand(seq![], r2@.0 + r2@.1) + pending@ =~= d.take(pos + length));
        }
        result = r2;
        let first_to_insert: usize = if length <= FULL_INSERT_MATCH_LEN { 1 } else { length - TAIL_INSERTIONS };
        let mut i = first_to_insert;
        while i < length
            invariant
                first_to_insert <= i <= length,
                length <= window.end() - pos,
                window.end() <= u64::MAX,
                window.holds(d),
                window.base() <= pos,
                chain.wf(),
                chain.spec_window_size() == WINDOW_SIZE,
            decreases length - i,
        {
            let p = pos + i as u64;
            if window.available_after(p) >= 3 {
                chain.insert(window, p);
            }
            i += 1;
        }
        new_pos = pos + length as u64;
    } else {
        let b = window.byte_at(pos);
        let ghost p0 = pending@;
        pending.push(b);
        proof {
            assert(d.take(pos as int).push(b) =~= d.take(pos + 1));
            assert(expand(seq![], done + cur) + pending@ =~= d.take(pos + 1));
            if run_at(d, pos as int, MIN_MATCH_LEN as int) {
                assert(same_bytes(d, pos - 1, pos as int, MIN_MATCH_LEN as int));
            }
            assert(literal_justified(d, pos as int));
            assert forall|i: int| 0 <= i < pending@.len() implies #[trigger] literal_justified(d, pos + 1 - pending@.len() + i) by {
                if i < p0.len() {
                    assert(literal_justified(d, pos - p0.len() + i));
                }
            }
        }
        result = maybe_flush_overflowing_run(pending, group, out_buf, Ghost(d), Ghost(pos + 1), Ghost(done), Ghost(cur));
        new_pos = pos + 1;
    }
    window.trim_if_needed(new_pos);
    (Some(new_pos), result)
}

impl LzssCompressor {
    /// Compresses `data`. When the first block does not shrink below four
    /// fifths, the data is given back as it is and marked `NoCompression`.
    pub fn compress(&self, data: &[u8], budget: &mut MemoryBudget) -> (r: Result<(Vec<u8>, CompressionId), AppError>)
        ensures
            r is Err <==> old(budget).available < lzss_memory(),
            r matches Err(e) ==> e is Compression,
            final(budget).available == old(budget).available,
            r matches Ok((out, id)) ==> (
            (id == CompressionId::LZSS && lzss_decode_spec(out@) == Some(data@) && out@.len() >= 1 && out@[0] == MODE_COMPRESSED)
                || (id == CompressionId::NoCompression && out@ == data@)),
            r matches Ok((_, id)) ==> lzss_chose(data@, id),
    {
        let ghost d = data@;
        let original_size = data.len() as u64;
        let mut window = match SlidingWindow::new(WINDOW_SIZE, LOOKAHEAD_SIZE, budget) {
            Ok(w) => w,
            Err(e) => {
                return Err(e);
            },
        };
        let mut chain = match HashChain::new(WINDOW_SIZE, budget) {
            Ok(c) => c,
            Err(e) => {
                window.release(budget);
                return Err(e);
            },
        };
        let mut out_buf: Vec<u8> = Vec::new();
        let mut group = TokenGroupWriter::new();
        let mut pending: Vec<u8> = Vec::new();
        let mut pos: u64 = 0;
        let mut gd: Ghost<Seq<LzToken>> = Ghost(Seq::<LzToken>::empty());
        let mut gc: Ghost<Seq<LzToken>> = Ghost(Seq::<LzToken>::empty());
        proof {
            assert(window.contents() =~= d.subrange(0, 0));
            assert(seq![] + seq![] =~= Seq::<LzToken>::empty());
            assert(expand(seq![], Seq::<LzToken>::empty()) + Seq::<u8>::empty() =~= d.take(0));
        }
        let sample_limit: u64 = if (SAMPLE_BLOCK_SIZE as u64) < original_size { SAMPLE_BLOCK_SIZE as u64 } else { original_size };
        while pos < sample_limit
            invariant
                d == data@,
                sample_limit <= d.len(),
                sample_limit == (if d.len() < SAMPLE_BLOCK_SIZE { d.len() as int } else { SAMPLE_BLOCK_SIZE as int }),
                window_ready(d, window, chain, pos as int),
                coded_upto(d, pos as int, group, out_buf@, pending@, gd@, gc@),
            ensures
                sample_limit <= pos,
                window_ready(d, window, chain, pos as int),
                coded_upto(d, pos as int, group, out_buf@, pending@, gd@, gc@),
            decreases d.len() - pos,
        {
            let (next, g) = compress_step(data, &mut window, &mut chain, &mut group, &mut pending, &mut out_buf, pos, gd, gc);
            match next {
                Some(np) => {
                    pos = np;
                    gd = Ghost(g@.0);
                    gc = Ghost(g@.1);
                },
                None => {
                    gd = Ghost(g@.0);
                    gc = Ghost(g@.1);
                    break;
                },
            }
        }
        let sample_len = pos;
        let estimate: u128 = out_buf.len() as u128 + group.pending_len_if_flushed() as u128
            + pending_literals_cost_estimate(pending.as_slice()) as u128;
        proof {
            assert(sample_coding(d, pos as int, gd@, gc@, pending@));
            assert(estimate == coding_size(gd@, gc@, pending@));
        }
        if sample_len > 0 && 5 * estimate >= 4 * (sample_len as u128) {
            chain.release(budget);
            window.release(budget);
            return Ok((vstd::slice::slice_to_vec(data), CompressionId::NoCompression));
        }
        loop
            invariant
                d == data@,
                window_ready(d, window, chain, pos as int),
                coded_upto(d, pos as int, group, out_buf@, pending@, gd@, gc@),
            ensures
                pos == d.len(),
                window_ready(d, window, chain, pos as int),
                coded_upto(d, pos as int, group, out_buf@, pending@, gd@, gc@),
            decreases d.len() - pos,
        {
            let (next, g) = compress_step(data, &mut window, &mut chain, &mut group, &mut pending, &mut out_buf, pos, gd, gc);
            match next {
                Some(np) => {
                    pos = np;
                    gd = Ghost(g@.0);
                    gc = Ghost(g@.1);
                },
                None => {
                    gd = Ghost(g@.0);
                    gc = Ghost(g@.1);
                    break;
                },
            }
        }
        let r = flush_pending_literals(&mut pending, &mut group, &mut out_buf, Ghost(d), Ghost(pos as int), gd, gc);
        group.flush(&mut out_buf, Ghost(r@.0), Ghost(r@.1));
        let ghost tokens = r@.0 + r@.1;
        chain.release(budget);
        window.release(budget);
        let mut out: Vec<u8> = Vec::new();
        out.push(MODE_COMPRESSED);
        push_u64_le(&mut out, original_size);
        append_slice(&mut out, out_buf.as_slice());
        proof {
            assert(d.take(d.len() as int) =~= d);
            assert(expand(seq![], tokens) + Seq::<u8>::empty() =~= expand(seq![], tokens));
            assert(expand(seq![], tokens) == d);
            assert(out@ =~= seq![MODE_COMPRESSED] + spec_u64_to_le_bytes(expand(seq![], tokens).len() as u64) + serialize(tokens));
            lemma_decode_serialized(tokens, out@);
        }
        Ok((out, CompressionId::LZSS))
    }

    pub fn id(&self) -> (r: CompressionId)
        ensures
            r == CompressionId::LZSS,
    {
        CompressionId::LZSS
    }
}

impl LzssCompressor {
    /// Decompresses a stored or compressed LZSS stream.
    pub fn decompress(&self, data: &[u8]) -> (r: Result<Vec<u8>, AppError>)
        ensures
            r is Ok <==> lzss_decode_spec(data@) is Some,
            r matches Ok(out) ==> lzss_decode_spec(data@) == Some(out@),
            r matches Err(e) ==> e is CorruptArchive,
    {
        let ghost s = data@;
        if data.len() < 9 {
            return Err(AppError::CorruptArchive(msg("LZ: неожиданный конец потока при чтении токена")));
        }
        let mode = data[0];
        let original_size: u64 = read_u64_at(data, 1);
        proof {
            assert(original_size == lzss_size(s));
        }
        if mode == MODE_STORED {
            if ((data.len() - 9) as u64) < original_size {
                return Err(AppError::CorruptArchive(msg("LZ: неожиданный конец потока при чтении токена")));
            }
            let body = vstd::slice::slice_subrange(data, 9, 9 + original_size as usize);
            return Ok(vstd::slice::slice_to_vec(body));
        }
        if mode != MODE_COMPRESSED {
            return Err(AppError::CorruptArchive(msg_with_number("LZSS: неизвестный режим потока: ", mode as u64)));
        }
        let mut window = DecodeHistory::new(WINDOW_SIZE);
        let mut out: Vec<u8> = Vec::new();
        let mut p: usize = 9;
        let mut flags: u8 = 0;
        let mut bit: u32 = 8;
        let ghost size = original_size as nat;
        proof {
            assert(last_bytes(out@, WINDOW_SIZE as nat) =~= Seq::<u8>::empty());
        }
        while (out.len() as u64) < original_size
            invariant
                s == data@,
                size == original_size,
                size == lzss_size(s),
                s.len() >= 9,
                s[0] == MODE_COMPRESSED,
                9 <= p <= s.len(),
                bit <= 8,
                out@.len() <= size,
                lzss_tokens(s, p as int, flags, bit as nat, out@, size) == lzss_tokens(s, 9, 0, 8, seq![], size),
                window.wf(),
                window.capacity() == WINDOW_SIZE,
                window.bytes() == last_bytes(out@, WINDOW_SIZE as nat),
            decreases 9 * (s.len() - p) + (8 - bit),
        {
            if p >= data.len() {
                proof {
                    assert(out@.len() < size);
                    assert(lzss_tokens(s, p as int, flags, bit as nat, out@, size) is None);
                }
                return Err(AppError::CorruptArchive(msg("LZ: неожиданный конец потока при чтении токена")));
            }
            proof {
                assert(out@.len() < size);
                assert(((bit as nat) as u8) == (bit as u8));
            }
            if bit >= 8 {
                flags = data[p];
                p += 1;
                bit = 0;
            } else if (flags >> bit) & 1 == 1 {
                proof {
                    assert((flags >> (bit as u8)) == (flags >> bit));
                    assert((flags >> ((bit as nat) as u8)) & 1u8 == 1u8);
                }
                if data.len() - p < 2 {
                    return Err(AppError::CorruptArchive(msg("LZ: неожиданный конец потока при чтении токена")));
                }
                let offset = read_u16_at(data, p) as usize;
                if offset == 0 {
                    if data.len() - p < 4 {
                        return Err(AppError::CorruptArchive(msg("LZ: неожиданный конец потока при чтении токена")));
                    }
                    let run_len = read_u16_at(data, p + 2) as usize;
                    if run_len == 0 || run_len as u64 > original_size - out.len() as u64 {
                        return Err(AppError::CorruptArchive(msg("LZSS: некорректная длина литерального блока")));
                    }
                    if data.len() - p - 4 < run_len {
                        return Err(AppError::CorruptArchive(msg("LZ: неожиданный конец потока при чтении токена")));
                    }
                    let run = vstd::slice::slice_subrange(data, p + 4, p + 4 + run_len);
                    let ghost before = out@;
                    append_slice(&mut out, run);
                    window.extend(run);
                    proof {
                        lemma_last_bytes_concat(before, run@, WINDOW_SIZE as nat);
                    }
                    p = p + 4 + run_len;
                } else {
                    if data.len() - p < 3 {
                        return Err(AppError::CorruptArchive(msg("LZ: неожиданный конец потока при чтении токена")));
                    }
                    let length = data[p + 2] as usize + MIN_MATCH_LEN;
                    if offset > window.len() || length as u64 > original_size - out.len() as u64 {
                        proof {
                            assert(window.bytes().len() == if out@.len() <= WINDOW_SIZE { out@.len() } else { WINDOW_SIZE as nat });
                        }
                        return Err(AppError::CorruptArchive(msg("LZSS: некорректная ссылка назад")));
                    }
                    let ghost before = out@;
                    let copied = window.copy_match(offset, length, &mut out);
                    proof {
                        lemma_copy_from_history(before, offset as int, length as nat, WINDOW_SIZE as nat);
                        lemma_copy_back_len(before, offset as int, length as nat);
                    }
                    p += 3;
                }
                bit += 1;
            } else {
                let literal = data[p];
                let ghost before = out@;
                window.push(literal);
                out.push(literal);
                proof {
                    lemma_last_bytes_concat(before, seq![literal], WINDOW_SIZE as nat);
                    assert(before + seq![literal] =~= before.push(literal));
                    assert(last_bytes(before, WINDOW_SIZE as nat) + seq![literal] =~= last_bytes(before, WINDOW_SIZE as nat).push(literal));
                }
                p += 1;
                bit += 1;
            }
        }
        Ok(out)
    }
}

} // verus!