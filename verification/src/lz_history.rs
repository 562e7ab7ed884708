//! The decoder's history: the last bytes written, from which back
//! references are copied.
use std::collections::VecDeque;
use vstd::prelude::*;
use crate::error::{AppError, msg};
use crate::lz_window::same_bytes;

verus! {

/// `s` grown by `n` bytes, each a copy of the byte `offset` back (the copy
/// may overlap the bytes it produces).
pub open spec fn copy_back(s: Seq<u8>, offset: int, n: nat) -> Seq<u8>
    decreases n,
{
    if n == 0 {
        s
    } else {
        let t = copy_back(s, offset, (n - 1) as nat);
        t.push(t[t.len() - offset])
    }
}

/// The last `cap` bytes of `s` (all of them when it is shorter).
pub open spec fn last_bytes(s: Seq<u8>, cap: nat) -> Seq<u8> {
    if s.len() <= cap {
        s
    } else {
        s.skip(s.len() - cap)
    }
}

pub proof fn lemma_copy_back_len(s: Seq<u8>, offset: int, n: nat)
    ensures
        copy_back(s, offset, n).len() == s.len() + n,
        copy_back(s, offset, n).take(s.len() as int) == s,
    decreases n,
{
    if n > 0 {
        lemma_copy_back_len(s, offset, (n - 1) as nat);
        let t = copy_back(s, offset, (n - 1) as nat);
        assert(t.push(t[t.len() - offset]).take(s.len() as int) =~= t.take(s.len() as int));
    } else {
        assert(s.take(s.len() as int) =~= s);
    }
}

/// Copying from the last bytes of `s` gives the bytes that copying from `s` gives.
pub proof fn lemma_copy_back_suffix(s: Seq<u8>, k: int, offset: int, n: nat)
    requires
        0 <= k <= s.len(),
        1 <= offset <= s.len() - k,
    ensures
        copy_back(s, offset, n) == s.take(k) + copy_back(s.skip(k), offset, n),
    decreases n,
{
    if n == 0 {
        assert(s =~= s.take(k) + s.skip(k));
    } else {
        lemma_copy_back_suffix(s, k, offset, (n - 1) as nat);
        lemma_copy_back_len(s, offset, (n - 1) as nat);
        lemma_copy_back_len(s.skip(k), offset, (n - 1) as nat);
        let t = copy_back(s, offset, (n - 1) as nat);
        let u = copy_back(s.skip(k), offset, (n - 1) as nat);
        assert(t[t.len() - offset] == u[u.len() - offset]);
        assert(t.push(t[t.len() - offset]) =~= s.take(k) + u.push(u[u.len() - offset]));
    }
}

/// Copying `length` bytes from `offset` back continues the data when the
/// bytes match.
pub proof fn lemma_match_expands(d: Seq<u8>, pos: int, offset: int, length: nat)
    requires
        1 <= offset <= pos,
        pos + length <= d.len(),
        same_bytes(d, pos - offset, pos, length as int),
    ensures
        copy_back(d.take(pos), offset, length) == d.take(pos + length),
    decreases length,
{
    if length > 0 {
        lemma_match_expands(d, pos, offset, (length - 1) as nat);
        let t = d.take(pos + length - 1);
        assert(d[pos - offset + (length - 1)] == d[pos + (length - 1)]);
        assert(t.push(t[t.len() - offset]) =~= d.take(pos + length));
    }
}

pub proof fn lemma_last_bytes_concat(s: Seq<u8>, t: Seq<u8>, cap: nat)
    requires
        cap > 0,
    ensures
        last_bytes(last_bytes(s, cap) + t, cap) == last_bytes(s + t, cap),
{
    assert(last_bytes(last_bytes(s, cap) + t, cap) =~= last_bytes(s + t, cap));
}

/// Copying from the history gives what copying from the whole output gives.
pub proof fn lemma_copy_from_history(out: Seq<u8>, offset: int, n: nat, cap: nat)
    requires
        cap > 0,
        1 <= offset <= last_bytes(out, cap).len(),
    ensures
        out + copy_back(last_bytes(out, cap), offset, n).skip(last_bytes(out, cap).len() as int) == copy_back(out, offset, n),
        last_bytes(copy_back(last_bytes(out, cap), offset, n), cap) == last_bytes(copy_back(out, offset, n), cap),
{
    let h = last_bytes(out, cap);
    let k = out.len() - h.len();
    assert(out.skip(k) =~= h);
    lemma_copy_back_suffix(out, k, offset, n);
    lemma_copy_back_len(h, offset, n);
    let c = copy_back(h, offset, n);
    assert(c =~= h + c.skip(h.len() as int));
    assert(out.take(k) + h =~= out);
    assert(out + c.skip(h.len() as int) =~= out.take(k) + c);
    assert(last_bytes(c, cap) =~= last_bytes(out.take(k) + c, cap));
}

proof fn lemma_last_bytes_push(s: Seq<u8>, b: u8, cap: nat)
    requires
        cap > 0,
    ensures
        last_bytes(last_bytes(s, cap).push(b), cap) == last_bytes(s.push(b), cap),
{
    assert(last_bytes(last_bytes(s, cap).push(b), cap) =~= last_bytes(s.push(b), cap));
}

/// The last bytes written, at most its capacity, oldest first.
pub struct DecodeHistory {
    data: VecDeque<u8>,
    cap: usize,
}

impl DecodeHistory {
    pub closed spec fn capacity(&self) -> nat {
        self.cap as nat
    }

    /// The bytes held, oldest first.
    pub closed spec fn bytes(&self) -> Seq<u8> {
        self.data@
    }

    pub closed spec fn wf(&self) -> bool {
        &&& self.cap > 0
        &&& self.data@.len() <= self.cap
    }

    /// An empty history of `capacity` bytes.
    pub fn new(capacity: usize) -> (r: DecodeHistory)
        requires
            capacity > 0,
        ensures
            r.wf(),
            r.capacity() == capacity,
            r.bytes() == Seq::<u8>::empty(),
    {
        DecodeHistory { data: VecDeque::with_capacity(capacity), cap: capacity }
    }

    /// Number of bytes held.
    pub fn len(&self) -> (r: usize)
        ensures
            r == self.bytes().len(),
    {
        self.data.len()
    }

    /// Appends a byte, forgetting the oldest when full.
    pub fn push(&mut self, byte: u8)
        requires
            old(self).wf(),
        ensures
            final(self).wf(),
            final(self).capacity() == old(self).capacity(),
            final(self).bytes() == last_bytes(old(self).bytes().push(byte), old(self).capacity()),
    {
        let ghost grown = self.data@.push(byte);
        self.data.push_back(byte);
        if self.data.len() > self.cap {
            let _ = self.data.pop_front();
            assert(self.data@ =~= grown.skip(grown.len() - self.cap));
        }
    }

    /// Appends all of `bytes`.
    pub fn extend(&mut self, bytes: &[u8])
        requires
            old(self).wf(),
        ensures
            final(self).wf(),
            final(self).capacity() == old(self).capacity(),
            final(self).bytes() == last_bytes(old(self).bytes() + bytes@, old(self).capacity()),
    {
        let ghost start = self.bytes();
        let ghost cap = self.capacity();
        let mut i: usize = 0;
        proof {
            assert(start + bytes@.take(0) =~= start);
            assert(last_bytes(start, cap) =~= start);
        }
        while i < bytes.len()
            invariant
                i <= bytes@.len(),
                self.wf(),
                self.capacity() == cap,
                cap > 0,
                self.bytes() == last_bytes(start + bytes@.take(i as int), cap),
            decreases bytes@.len() - i,
        {
            self.push(bytes[i]);
            proof {
                lemma_last_bytes_push(start + bytes@.take(i as int), bytes@[i as int], cap);
                assert((start + bytes@.take(i as int)).push(bytes@[i as int]) =~= start + bytes@.take(i + 1));
            }
            i += 1;
        }
        proof {
            assert(bytes@.take(bytes@.len() as int) =~= bytes@);
        }
    }

    /// Copies `length` bytes from `offset` back, appending them to the
    /// history and to `out`; fails when `offset` is 0 or reaches past the
    /// bytes held.
    pub fn copy_match(&mut self, offset: usize, length: usize, out: &mut Vec<u8>) -> (r: Result<(), AppError>)
        requires
            old(self).wf(),
        ensures
            r is Ok <==> 1 <= offset <= old(self).bytes().len(),
            r matches Err(e) ==> e is CorruptArchive && *final(self) == *old(self) && final(out)@ == old(out)@,
            r is Ok ==> final(self).wf() && final(self).capacity() == old(self).capacity()
                && final(self).bytes() == last_bytes(copy_back(old(self).bytes(), offset as int, length as nat), old(self).capacity())
                && final(out)@ == old(out)@ + copy_back(old(self).bytes(), offset as int, length as nat).skip(
                    old(self).bytes().len() as int,
                ),
    {
        if offset == 0 || offset > self.data.len() {
            return Err(AppError::CorruptArchive(msg("LZ: некорректный offset ссылки назад")));
        }
        let ghost v0 = self.bytes();
        let ghost o0 = out@;
        let ghost cap = self.capacity();
        let mut i: usize = 0;
        proof {
            assert(copy_back(v0, offset as int, 0).skip(v0.len() as int) =~= Seq::<u8>::empty());
            assert(o0 + Seq::<u8>::empty() =~= o0);
            assert(last_bytes(v0, cap) =~= v0);
        }
        while i < length
            invariant
                i <= length,
                self.wf(),
                self.capacity() == cap,
                1 <= offset <= v0.len(),
                self.bytes().len() >= offset,
                self.bytes() == last_bytes(copy_back(v0, offset as int, i as nat), cap),
                out@ == o0 + copy_back(v0, offset as int, i as nat).skip(v0.len() as int),
            decreases length - i,
        {
            let ghost t = copy_back(v0, offset as int, i as nat);
            proof {
                lemma_copy_back_len(v0, offset as int, i as nat);
            }
            let index = self.data.len() - offset;
            let byte = self.data[index];
            proof {
                assert(byte == self.bytes()[self.bytes().len() - offset]);
                assert(byte == t[t.len() - offset]);
            }
            self.push(byte);
            out.push(byte);
            proof {
                lemma_last_bytes_push(t, byte, cap);
                lemma_copy_back_len(v0, offset as int, (i + 1) as nat);
                assert(copy_back(v0, offset as int, (i + 1) as nat) == t.push(byte));
                assert(o0 + t.push(byte).skip(v0.len() as int) =~= (o0 + t.skip(v0.len() as int)).push(byte));
            }
            i += 1;
        }
        Ok(())
    }
}

} // verus!
