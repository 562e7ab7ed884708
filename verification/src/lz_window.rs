//! Match finding for the LZ compressors: a window over the input, hash
//! chains of 3-byte prefixes, and the longest-match search.
use vstd::prelude::*;
use crate::error::{AppError, msg, msg_with_number};
use crate::memory_budget::{BudgetGuard, MemoryBudget};

verus! {

/// Bytes fetched from the input at a time.
pub const INPUT_READ_SIZE: usize = 262144;

/// Number of hash-chain heads (2^16).
pub const HASH_SIZE: usize = 65536;

/// End-of-chain mark.
pub const NONE: u64 = 0xffff_ffff_ffff_ffff;

pub const NICE_MATCH_LEN: usize = 128;
pub const GOOD_MATCH_LEN: usize = 32;

/// A bounded window over the input: it holds the input bytes from `base`
/// on, keeps `window_size` bytes behind the current position and reads
/// ahead in blocks. Its capacity is reserved from the memory budget while it
/// lives.
pub struct SlidingWindow {
    buffer: Vec<u8>,
    base_pos: u64,
    exhausted: bool,
    window_size: usize,
    capacity: usize,
    guard: BudgetGuard,
}

/// The bytes a window of `window_size` with look-ahead `lookahead_size` holds.
pub open spec fn window_bytes(window_size: nat, lookahead_size: nat) -> nat {
    (window_size + INPUT_READ_SIZE + lookahead_size) as nat
}

impl SlidingWindow {
    /// The bytes the window holds from the memory budget.
    pub closed spec fn reserved(&self) -> int {
        self.guard.busy()
    }

    /// The window holds its whole capacity from the budget.
    pub open spec fn guarded(&self) -> bool {
        self.reserved() == self.spec_capacity()
    }

    /// Position in the input of the first byte held.
    pub closed spec fn base(&self) -> int {
        self.base_pos as int
    }

    /// The bytes held.
    pub closed spec fn contents(&self) -> Seq<u8> {
        self.buffer@
    }

    /// The end of the input has been reached.
    pub closed spec fn done(&self) -> bool {
        self.exhausted
    }

    pub closed spec fn spec_window_size(&self) -> nat {
        self.window_size as nat
    }

    pub closed spec fn spec_capacity(&self) -> nat {
        self.capacity as nat
    }

    /// One past the last position held.
    pub open spec fn end(&self) -> int {
        self.base() + self.contents().len()
    }

    /// The window holds a part of `source`.
    pub open spec fn holds(&self, source: Seq<u8>) -> bool {
        &&& self.guarded()
        &&& 0 <= self.base()
        &&& self.end() <= source.len()
        &&& self.contents() == source.subrange(self.base(), self.end())
        &&& self.done() ==> self.end() == source.len()
        &&& self.contents().len() <= self.spec_capacity()
        &&& self.spec_window_size() <= self.spec_capacity()
    }

    /// An empty window, its capacity (window, read block and look-ahead)
    /// taken from `budget`; fails when the capacity does not fit in `usize`
    /// or `i64`, or when the budget has less free, and then takes nothing.
    pub fn new(window_size: usize, lookahead_size: usize, budget: &mut MemoryBudget) -> (r: Result<SlidingWindow, AppError>)
        ensures
            r is Ok <==> window_bytes(window_size as nat, lookahead_size as nat) <= usize::MAX && window_bytes(
                window_size as nat,
                lookahead_size as nat,
            ) <= i64::MAX && old(budget).available >= window_bytes(window_size as nat, lookahead_size as nat),
            r matches Ok(w) ==> w.base() == 0 && w.contents().len() == 0 && !w.done()
                && w.spec_window_size() == window_size
                && w.spec_capacity() == window_bytes(window_size as nat, lookahead_size as nat)
                && w.guarded()
                && final(budget).available == old(budget).available - window_bytes(window_size as nat, lookahead_size as nat),
            r is Err ==> *final(budget) == *old(budget),
            r matches Err(e) ==> e is Compression,
    {
        let capacity = match window_size.checked_add(INPUT_READ_SIZE) {
            Some(v) => match v.checked_add(lookahead_size) {
                Some(c) => c,
                None => {
                    return Err(AppError::Compression(msg("LZSS: Переполнение при вычислении размера скользящего окна")));
                },
            },
            None => {
                return Err(AppError::Compression(msg("LZSS: Переполнение при вычислении размера скользящего окна")));
            },
        };
        if capacity as u64 > 0x7fff_ffff_ffff_ffffu64 {
            return Err(AppError::Compression(msg("LZSS: Переполнение при вычислении размера скользящего окна")));
        }
        let mut guard = BudgetGuard::default();
        if !guard.try_grow(budget, capacity as i64) {
            return Err(AppError::Compression(msg_with_number("LZSS: Не удалось зарезервировать байт под скользящее окно - бюджет памяти исчерпан: ", capacity as u64)));
        }
        Ok(SlidingWindow { buffer: Vec::new(), base_pos: 0, exhausted: false, window_size, capacity, guard })
    }

    /// Ends the window, giving its bytes back to `budget`.
    pub fn release(self, budget: &mut MemoryBudget)
        requires
            old(budget).available + self.reserved() <= i64::MAX,
            old(budget).available + self.reserved() >= i64::MIN,
        ensures
            final(budget).available == old(budget).available + self.reserved(),
    {
        self.guard.finish(budget);
    }

    /// Number of bytes held from `pos` on.
    pub fn available_after(&self, pos: u64) -> (r: usize)
        requires
            self.base() <= pos,
        ensures
            r == if pos <= self.end() { self.end() - pos } else { 0 },
    {
        let local = pos - self.base_pos;
        if local >= self.buffer.len() as u64 {
            0
        } else {
            self.buffer.len() - local as usize
        }
    }

    /// The input byte at `pos`.
    pub fn byte_at(&self, pos: u64) -> (r: u8)
        requires
            self.base() <= pos < self.end(),
        ensures
            r == self.contents()[pos - self.base()],
    {
        let local = pos - self.base_pos;
        let blen = self.buffer.len();
        assert(local < blen as u64);
        self.buffer[local as usize]
    }

    /// The bytes held from `pos` on.
    pub fn slice_from(&self, pos: u64) -> (r: &[u8])
        requires
            self.base() <= pos <= self.end(),
        ensures
            r@ == self.contents().skip(pos - self.base()),
    {
        let local = (pos - self.base_pos) as usize;
        vstd::slice::slice_subrange(self.buffer.as_slice(), local, self.buffer.len())
    }

    /// Nothing to do: the window is compacted when it reads.
    pub fn trim_if_needed(&mut self, pos: u64)
        ensures
            *final(self) == *old(self),
    {
    }

    /// Drops the bytes more than `window_size` behind `pos`.
    fn compact_for(&mut self, Ghost(source): Ghost<Seq<u8>>, pos: u64)
        requires
            old(self).holds(source),
            old(self).base() <= pos <= old(self).end(),
        ensures
            final(self).holds(source),
            final(self).end() == old(self).end(),
            final(self).done() == old(self).done(),
            final(self).spec_window_size() == old(self).spec_window_size(),
            final(self).spec_capacity() == old(self).spec_capacity(),
            final(self).base() == if pos >= old(self).base() + old(self).spec_window_size() {
                pos - old(self).spec_window_size()
            } else {
                old(self).base()
            },
    {
        let keep_from = pos.saturating_sub(self.window_size as u64);
        if keep_from <= self.base_pos {
            return;
        }
        let drop_count = (keep_from - self.base_pos) as usize;
        let mut kept: Vec<u8> = Vec::new();
        let mut i = drop_count;
        while i < self.buffer.len()
            invariant
                drop_count <= i <= self.buffer.len(),
                kept@ == self.buffer@.subrange(drop_count as int, i as int),
            decreases self.buffer.len() - i,
        {
            kept.push(self.buffer[i]);
            proof {
                assert(kept@ =~= self.buffer@.subrange(drop_count as int, i + 1));
            }
            i += 1;
        }
        proof {
            assert(kept@ =~= source.subrange(keep_from as int, old(self).end()));
        }
        self.buffer = kept;
        self.base_pos = keep_from;
    }

    /// Reads ahead until `want` bytes from `pos` on are held or the input
    /// ends.
    pub fn ensure_available(&mut self, source: &[u8], pos: u64, want: usize) -> (r: Result<(), AppError>)
        requires
            old(self).holds(source@),
            old(self).base() <= pos <= old(self).end(),
            old(self).base() == 0 || old(self).base() + old(self).spec_window_size() <= pos,
            want + old(self).spec_window_size() <= old(self).spec_capacity(),
        ensures
            r is Ok,
            final(self).holds(source@),
            final(self).base() <= pos <= final(self).end(),
            final(self).base() == 0 || final(self).base() + final(self).spec_window_size() <= pos,
            final(self).end() >= pos + want || final(self).end() == source@.len(),
            final(self).spec_window_size() == old(self).spec_window_size(),
            final(self).spec_capacity() == old(self).spec_capacity(),
    {
        if self.available_after(pos) < want && !self.exhausted {
            self.compact_for(Ghost(source@), pos);
        }
        while !self.exhausted && self.available_after(pos) < want
            invariant
                self.holds(source@),
                self.base() <= pos <= self.end(),
                self.base() == 0 || self.base() + self.spec_window_size() <= pos,
                want + self.spec_window_size() <= self.spec_capacity(),
                self.spec_window_size() == old(self).spec_window_size(),
                self.spec_capacity() == old(self).spec_capacity(),
                !self.done() && self.end() < pos + want ==> self.base() + self.spec_window_size() >= pos,
            decreases source@.len() - self.end(), if self.done() { 0int } else { 1int },
        {
            let free = self.capacity - self.buffer.len();
            if free == 0 {
                return Err(AppError::Io(msg("LZ: Недостаточная ёмкость скользящего окна!")));
            }
            let to_read = if free < INPUT_READ_SIZE { free } else { INPUT_READ_SIZE };
            let blen = self.buffer.len();
            let slen = source.len();
            assert(self.base_pos + blen <= slen);
            let start: usize = (self.base_pos + blen as u64) as usize;
            let left = source.len() - start;
            let read = if to_read < left { to_read } else { left };
            crate::bytes_io::append_slice(&mut self.buffer, vstd::slice::slice_subrange(source, start, start + read));
            if read == 0 {
                self.exhausted = true;
            }
            proof {
                assert(self.buffer@ =~= source@.subrange(self.base(), self.end()));
            }
        }
        Ok(())
    }
}

/// A byte stretch of `source` of `len` bytes from `a` equals the one from `b`.
pub open spec fn same_bytes(source: Seq<u8>, a: int, b: int, len: int) -> bool {
    forall|i: int| 0 <= i < len ==> #[trigger] source[a + i] == source[b + i]
}

/// Length of the common prefix of `a` and `b`, at most `max_len`.
pub fn common_prefix_len(a: &[u8], b: &[u8], max_len: usize) -> (r: usize)
    ensures
        r <= max_len && r <= a@.len() && r <= b@.len(),
        forall|i: int| 0 <= i < r ==> #[trigger] a@[i] == b@[i],
        r < max_len && r < a@.len() && r < b@.len() ==> a@[r as int] != b@[r as int],
{
    let mut limit = max_len;
    if a.len() < limit {
        limit = a.len();
    }
    if b.len() < limit {
        limit = b.len();
    }
    let mut len: usize = 0;
    while len < limit && a[len] == b[len]
        invariant
            len <= limit,
            limit <= max_len && limit <= a@.len() && limit <= b@.len(),
            limit == max_len || limit == a@.len() || limit == b@.len(),
            forall|i: int| 0 <= i < len ==> #[trigger] a@[i] == b@[i],
        decreases limit - len,
    {
        len += 1;
    }
    len
}

/// The hash of a 3-byte prefix.
pub open spec fn hash3_spec(b0: u8, b1: u8, b2: u8) -> int {
    (((b0 as u32) | ((b1 as u32) << 8u32) | ((b2 as u32) << 16u32)).wrapping_mul(2654435761u32) / 65536u32) as int
}

/// Hash chains: `head[h]` is the latest position whose 3-byte prefix hashes
/// to `h`, `prev[p % window_size]` the position before `p` with the same hash.
pub struct HashChain {
    head: Vec<u64>,
    prev: Vec<u64>,
    window_size: usize,
    guard: BudgetGuard,
}

/// The bytes the chains for a window of `window_size` hold.
pub open spec fn chain_bytes(window_size: nat) -> nat {
    ((HASH_SIZE + window_size) * 8) as nat
}

impl HashChain {
    pub closed spec fn heads(&self) -> Seq<u64> {
        self.head@
    }

    pub closed spec fn prevs(&self) -> Seq<u64> {
        self.prev@
    }

    pub closed spec fn spec_window_size(&self) -> nat {
        self.window_size as nat
    }

    /// The bytes the chains hold from the memory budget.
    pub closed spec fn reserved(&self) -> int {
        self.guard.busy()
    }

    pub open spec fn wf(&self) -> bool {
        &&& self.heads().len() == HASH_SIZE
        &&& self.prevs().len() == self.spec_window_size()
        &&& self.spec_window_size() > 0
        &&& self.reserved() == chain_bytes(self.spec_window_size())
    }

    /// Empty chains, their bytes taken from `budget`; fails when they do
    /// not fit in `usize` or `i64`, or when the budget has less free, and
    /// then takes nothing.
    pub fn new(window_size: usize, budget: &mut MemoryBudget) -> (r: Result<HashChain, AppError>)
        requires
            window_size > 0,
        ensures
            r is Ok <==> chain_bytes(window_size as nat) <= usize::MAX && chain_bytes(window_size as nat) <= i64::MAX
                && old(budget).available >= chain_bytes(window_size as nat),
            r matches Ok(c) ==> {
                &&& c.wf()
                &&& c.spec_window_size() == window_size
                &&& forall|h: int| 0 <= h < HASH_SIZE ==> #[trigger] c.heads()[h] == NONE
                &&& forall|s: int| 0 <= s < window_size ==> #[trigger] c.prevs()[s] == NONE
                &&& final(budget).available == old(budget).available - chain_bytes(window_size as nat)
            },
            r is Err ==> *final(budget) == *old(budget),
            r matches Err(e) ==> e is Compression,
    {
        let bytes = match window_size.checked_add(HASH_SIZE) {
            Some(v) => match v.checked_mul(8) {
                Some(b) => b,
                None => {
                    return Err(AppError::Compression(msg("LZSS: Переполнение при вычислении размера хэш-таблицы")));
                },
            },
            None => {
                return Err(AppError::Compression(msg("LZSS: Переполнение при вычислении размера хэш-таблицы")));
            },
        };
        if bytes as u64 > 0x7fff_ffff_ffff_ffffu64 {
            return Err(AppError::Compression(msg("LZSS: Переполнение при вычислении размера хэш-таблицы")));
        }
        let mut guard = BudgetGuard::default();
        if !guard.try_grow(budget, bytes as i64) {
            return Err(AppError::Compression(msg_with_number("LZSS: Не удалось зарезервировать байт под хэш-таблицу - бюджет памяти исчерпан: ", bytes as u64)));
        }
        let mut head: Vec<u64> = Vec::new();
        let mut i: usize = 0;
        while i < HASH_SIZE
            invariant
                i <= HASH_SIZE,
                head@.len() == i,
                forall|h: int| 0 <= h < i ==> #[trigger] head@[h] == NONE,
            decreases HASH_SIZE - i,
        {
            head.push(NONE);
            i += 1;
        }
        let mut prev: Vec<u64> = Vec::new();
        let mut j: usize = 0;
        while j < window_size
            invariant
                j <= window_size,
                prev@.len() == j,
                forall|s: int| 0 <= s < j ==> #[trigger] prev@[s] == NONE,
            decreases window_size - j,
        {
            prev.push(NONE);
            j += 1;
        }
        Ok(HashChain { head, prev, window_size, guard })
    }

    /// Ends the chains, giving their bytes back to `budget`.
    pub fn release(self, budget: &mut MemoryBudget)
        requires
            old(budget).available + self.reserved() <= i64::MAX,
            old(budget).available + self.reserved() >= i64::MIN,
        ensures
            final(budget).available == old(budget).available + self.reserved(),
    {
        self.guard.finish(budget);
    }

    fn hash3(b0: u8, b1: u8, b2: u8) -> (r: usize)
        ensures
            r == hash3_spec(b0, b1, b2),
            r < HASH_SIZE,
    {
        let v: u32 = (b0 as u32) | ((b1 as u32) << 8) | ((b2 as u32) << 16);
        let x: u32 = v.wrapping_mul(2_654_435_761);
        proof {
            assert(x >> 16u32 == x / 65536u32 && x / 65536u32 < 65536) by (bit_vector);
        }
        (x >> 16) as usize
    }

    /// Records `pos` under the hash of its 3-byte prefix (when three bytes
    /// are held from `pos` on).
    pub fn insert(&mut self, window: &SlidingWindow, pos: u64)
        requires
            old(self).wf(),
            window.base() <= pos,
            window.end() <= u64::MAX,
        ensures
            final(self).wf(),
            final(self).spec_window_size() == old(self).spec_window_size(),
            if pos + 3 <= window.end() {
                let h = hash3_spec(
                    window.contents()[pos - window.base()],
                    window.contents()[pos + 1 - window.base()],
                    window.contents()[pos + 2 - window.base()],
                );
                &&& final(self).prevs() == old(self).prevs().update((pos as int) % (old(self).spec_window_size() as int), old(self).heads()[h])
                &&& final(self).heads() == old(self).heads().update(h, pos)
            } else {
                final(self).prevs() == old(self).prevs() && final(self).heads() == old(self).heads()
            },
    {
        if window.available_after(pos) < 3 {
            return;
        }
        let b0 = window.byte_at(pos);
        let b1 = window.byte_at(pos + 1);
        let b2 = window.byte_at(pos + 2);
        let h = Self::hash3(b0, b1, b2);
        let slot = (pos % self.window_size as u64) as usize;
        let old_head = self.head[h];
        self.prev.set(slot, old_head);
        self.head.set(h, pos);
    }
}

/// `(offset, length)` is a match for the data at `pos`: the `length` bytes
/// `offset` back equal those at `pos`.
pub open spec fn valid_match(source: Seq<u8>, pos: int, offset: int, length: int, window_size: int) -> bool {
    &&& 1 <= offset <= pos
    &&& offset <= window_size
    &&& pos + length <= source.len()
    &&& same_bytes(source, pos - offset, pos, length)
}

/// Searches the window for the longest earlier copy of the data at `pos`,
/// of at least `min_match_len` and at most `max_len` bytes, following at most
/// `max_chain_len` chain entries. Gives `(offset, length)`, or `(0, 0)`.
pub fn find_longest_match(
    window: &SlidingWindow,
    chain: &HashChain,
    pos: u64,
    window_size: u64,
    max_len: usize,
    min_match_len: usize,
    max_chain_len: usize,
    Ghost(source): Ghost<Seq<u8>>,
) -> (r: (usize, usize))
    requires
        window.holds(source),
        chain.wf(),
        window.base() <= pos <= window.end(),
        window.base() == 0 || window.base() + window_size <= pos,
        min_match_len >= 3,
        max_len <= window.end() - pos,
    ensures
        r == (0usize, 0usize) || (min_match_len <= r.1 <= max_len && valid_match(source, pos as int, r.0 as int, r.1 as int, window_size as int)),
        max_len < min_match_len || window.end() - pos < min_match_len ==> r == (0usize, 0usize),
        pos > 0 && window_size > 0 && min_match_len <= max_len && same_bytes(source, pos - 1, pos as int, min_match_len as int)
            ==> r.1 >= min_match_len,
        forall|k: int|
            #![trigger same_bytes(source, pos - 1, pos as int, k)]
            pos > 0 && window_size > 0 && min_match_len <= k <= max_len && same_bytes(source, pos - 1, pos as int, k)
                ==> r.1 >= k,
{
    if max_len < min_match_len || window.available_after(pos) < min_match_len {
        return (0, 0);
    }
    let window_start = pos.saturating_sub(window_size);
    let current = window.slice_from(pos);
    let ghost base = window.base();
    let mut best_len: usize = 0;
    let mut best_offset: usize = 0;
    proof {
        assert(current@.len() >= min_match_len);
    }
    let ghost run = pos > 0 && window_size > 0 && same_bytes(source, pos - 1, pos as int, min_match_len as int);
    proof {
        if run {
            assert(source[pos - 1 + 0] == source[pos + 0]);
            assert(window.contents()[pos - 1 - base] == source[pos - 1]);
            assert(current@[0] == source[pos as int]);
        }
    }
    if pos > window_start && window.byte_at(pos - 1) == current[0] {
        let prev = window.slice_from(pos - 1);
        let len = common_prefix_len(prev, current, max_len);
        proof {
            assert forall|k: int|
                min_match_len <= k <= max_len && #[trigger] same_bytes(source, pos - 1, pos as int, k) implies len >= k by {
                if len < k {
                    assert(prev@[len as int] == source[pos - 1 + len]);
                    assert(current@[len as int] == source[pos + len]);
                    assert(source[pos - 1 + len] == source[pos + len]);
                }
            }
            if run && len < min_match_len {
                assert(prev@[len as int] == source[pos - 1 + len]);
                assert(current@[len as int] == source[pos + len]);
                assert(source[pos - 1 + len] == source[pos + len]);
            }
        }
        if len >= min_match_len {
            best_len = len;
            best_offset = 1;
            proof {
                assert forall|i: int| 0 <= i < len implies #[trigger] source[pos - 1 + i] == source[pos + i] by {
                    assert(window.contents().skip(pos - 1 - base)[i] == window.contents().skip(pos - base)[i]);
                }
            }
            if len >= NICE_MATCH_LEN || len == max_len {
                return (best_offset, best_len);
            }
        }
    }
    let ghost run_len = best_len;
    proof {
        assert(run ==> run_len >= min_match_len);
        assert forall|k: int|
            pos > 0 && window_size > 0 && min_match_len <= k <= max_len && #[trigger] same_bytes(source, pos - 1, pos as int, k)
            implies run_len >= k by {
            assert(source[pos - 1 + 0] == source[pos + 0]);
            assert(window.contents()[pos - 1 - base] == source[pos - 1]);
            assert(current@[0] == source[pos as int]);
        }
    }
    let b0 = current[0];
    let b1 = current[1];
    let b2 = current[2];
    let h = HashChain::hash3(b0, b1, b2);
    let mut cur: u64 = chain.head[h];
    let mut checked: usize = 0;
    let quarter = max_chain_len / 4 + if max_chain_len % 4 == 0 { 0 } else { 1 };
    while checked < max_chain_len
        invariant_except_break
            best_len < max_len,
        invariant
            window.holds(source),
            chain.wf(),
            base == window.base(),
            window.base() <= pos <= window.end(),
            window.base() == 0 || window.base() + window_size <= pos,
            window_start == if pos >= window_size { pos - window_size } else { 0 },
            current@ == window.contents().skip(pos - base),
            current@.len() >= min_match_len,
            min_match_len >= 3,
            min_match_len <= max_len,
            best_len <= max_len,
            max_len <= current@.len(),
            best_len == 0 || (best_len <= current@.len() && valid_match(source, pos as int, best_offset as int, best_len as int, window_size as int)),
            best_len >= run_len,
            run ==> run_len >= min_match_len,
        ensures
            best_len >= run_len,
            best_len <= max_len,
            best_len == 0 || valid_match(source, pos as int, best_offset as int, best_len as int, window_size as int),
        decreases max_chain_len - checked,
    {
        if cur == NONE || cur < window_start {
            break;
        }
        let cand_pos = cur;
        cur = chain.prev[(cand_pos % chain.window_size as u64) as usize];
        if best_len >= GOOD_MATCH_LEN && checked >= quarter {
            break;
        }
        checked += 1;
        if cand_pos >= pos || (best_offset == 1 && cand_pos + 1 == pos) {
            continue;
        }
        proof {
            assert(base <= cand_pos) by {
                if base > 0 {
                    assert(window_start == pos - window_size);
                }
            }
        }
        let candidate = window.slice_from(cand_pos);
        if candidate[0] != current[0] || candidate[1] != current[1] || candidate[2] != current[2] || (best_len > 0
            && candidate[best_len] != current[best_len]) {
            continue;
        }
        let len = common_prefix_len(candidate, current, max_len);
        if len > best_len {
            best_len = len;
            best_offset = (pos - cand_pos) as usize;
            proof {
                assert forall|i: int| 0 <= i < len implies #[trigger] source[cand_pos + i] == source[pos + i] by {
                    assert(window.contents().skip(cand_pos - base)[i] == window.contents().skip(pos - base)[i]);
                }
                assert(best_offset == pos - cand_pos);
                assert(cand_pos == pos - best_offset);
            }
            if best_len >= NICE_MATCH_LEN || best_len == max_len {
                break;
            }
        }
    }
    if best_len >= min_match_len {
        (best_offset, best_len)
    } else {
        (0, 0)
    }
}

} // verus!
