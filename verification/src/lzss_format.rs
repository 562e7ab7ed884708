//! The LZSS stream.
//!
//! A stream starts with its mode (u8) and the original size (u64,
//! little-endian). In stored mode the data follows as it is. In compressed
//! mode groups follow: a flag byte, then up to eight tokens; flag bit `i`
//! (least significant first) set marks token `i` as a reference, clear as a
//! literal byte. A reference is an offset (u16); offset 0 starts a literal
//! run (length u16, then the bytes), any other offset is followed by the
//! copy length minus 3 (u8). Decoding stops once the original size is out.
use vstd::prelude::*;
use vstd::bytes::*;
use crate::lz_history::{copy_back, lemma_copy_back_len};

verus! {

pub const MIN_MATCH_LEN: usize = 3;
pub const MAX_LENGTH: usize = 258;
pub const WINDOW_SIZE: usize = 32768;
pub const GROUP_SIZE: usize = 8;
pub const MODE_COMPRESSED: u8 = 0;
pub const MODE_STORED: u8 = 1;

/// Decoding the tokens from byte `p` of `s`; `bit` is the next bit of
/// `flags` (8: a new group starts); decoding stops once `size` bytes are out.
pub open spec fn lzss_tokens(s: Seq<u8>, p: int, flags: u8, bit: nat, out: Seq<u8>, size: nat) -> Option<Seq<u8>>
    decreases s.len() - p, 8 - bit,
{
    if out.len() >= size {
        Some(out)
    } else if p < 0 || p >= s.len() {
        None
    } else if bit >= 8 {
        lzss_tokens(s, p + 1, s[p], 0, out, size)
    } else if (flags >> (bit as u8)) & 1u8 == 1u8 {
        if p + 2 > s.len() {
            None
        } else {
            let offset = spec_u16_from_le_bytes(s.subrange(p, p + 2)) as int;
            if offset == 0 {
                if p + 4 > s.len() {
                    None
                } else {
                    let run = spec_u16_from_le_bytes(s.subrange(p + 2, p + 4)) as int;
                    if run == 0 || run > size - out.len() || p + 4 + run > s.len() {
                        None
                    } else {
                        lzss_tokens(s, p + 4 + run, flags, bit + 1, out + s.subrange(p + 4, p + 4 + run), size)
                    }
                }
            } else if p + 3 > s.len() {
                None
            } else {
                let length = s[p + 2] + 3;
                if offset > out.len() || offset > WINDOW_SIZE || length > size - out.len() {
                    None
                } else {
                    lzss_tokens(s, p + 3, flags, bit + 1, copy_back(out, offset, length as nat), size)
                }
            }
        }
    } else {
        lzss_tokens(s, p + 1, flags, bit + 1, out.push(s[p]), size)
    }
}

/// The original size announced by the stream header.
pub open spec fn lzss_size(s: Seq<u8>) -> nat {
    spec_u64_from_le_bytes(s.subrange(1, 9)) as nat
}

/// What decompressing `s` gives; `None` for a damaged stream.
pub open spec fn lzss_decode_spec(s: Seq<u8>) -> Option<Seq<u8>> {
    if s.len() < 9 {
        None
    } else if s[0] == MODE_STORED {
        if s.len() - 9 >= lzss_size(s) {
            Some(s.subrange(9, 9 + lzss_size(s) as int))
        } else {
            None
        }
    } else if s[0] != MODE_COMPRESSED {
        None
    } else {
        lzss_tokens(s, 9, 0, 8, seq![], lzss_size(s))
    }
}

/// The stored form of `data`.
pub open spec fn stored_form(data: Seq<u8>) -> Seq<u8> {
    seq![MODE_STORED] + spec_u64_to_le_bytes(data.len() as u64) + data
}

// ------------------------------------------------------------------
// Tokens as the compressor writes them.
// ------------------------------------------------------------------

pub enum LzToken {
    Literal(u8),
    Match(int, int),
    Run(Seq<u8>),
}

pub open spec fn token_body(t: LzToken) -> Seq<u8> {
    match t {
        LzToken::Literal(b) => seq![b],
        LzToken::Match(o, l) => spec_u16_to_le_bytes(o as u16) + seq![(l - 3) as u8],
        LzToken::Run(bs) => spec_u16_to_le_bytes(0) + spec_u16_to_le_bytes(bs.len() as u16) + bs,
    }
}

pub open spec fn flag_of(t: LzToken) -> u8 {
    if t is Literal {
        0
    } else {
        1
    }
}

pub open spec fn group_flags(g: Seq<LzToken>) -> u8
    decreases g.len(),
{
    if g.len() == 0 {
        0
    } else {
        group_flags(g.drop_last()) | (flag_of(g.last()) << ((g.len() - 1) as u8))
    }
}

pub open spec fn group_bodies(g: Seq<LzToken>) -> Seq<u8>
    decreases g.len(),
{
    if g.len() == 0 {
        seq![]
    } else {
        group_bodies(g.drop_last()) + token_body(g.last())
    }
}

pub open spec fn group_bytes(g: Seq<LzToken>) -> Seq<u8> {
    seq![group_flags(g)] + group_bodies(g)
}

/// The tokens in groups of eight, the last group possibly shorter.
pub open spec fn serialize(ts: Seq<LzToken>) -> Seq<u8>
    decreases ts.len(),
{
    if ts.len() == 0 {
        seq![]
    } else if ts.len() <= 8 {
        group_bytes(ts)
    } else {
        group_bytes(ts.take(8)) + serialize(ts.skip(8))
    }
}

pub open spec fn apply_token(out: Seq<u8>, t: LzToken) -> Seq<u8> {
    match t {
        LzToken::Literal(b) => out.push(b),
        LzToken::Match(o, l) => copy_back(out, o, l as nat),
        LzToken::Run(bs) => out + bs,
    }
}

/// The data that the tokens stand for, written after `out`.
pub open spec fn expand(out: Seq<u8>, ts: Seq<LzToken>) -> Seq<u8>
    decreases ts.len(),
{
    if ts.len() == 0 {
        out
    } else {
        apply_token(expand(out, ts.drop_last()), ts.last())
    }
}

/// The decoder accepts token `t` after `out`.
pub open spec fn token_ok(out: Seq<u8>, t: LzToken) -> bool {
    match t {
        LzToken::Literal(_) => true,
        LzToken::Match(o, l) => 1 <= o <= out.len() && o <= WINDOW_SIZE && 3 <= l <= MAX_LENGTH,
        LzToken::Run(bs) => 1 <= bs.len() <= 65535,
    }
}

pub open spec fn tokens_ok(out: Seq<u8>, ts: Seq<LzToken>) -> bool
    decreases ts.len(),
{
    ts.len() == 0 || (tokens_ok(out, ts.drop_last()) && token_ok(expand(out, ts.drop_last()), ts.last()))
}

// ------------------------------------------------------------------
// Decoding what was serialized.
// ------------------------------------------------------------------

proof fn bv_flag_bits(f: u8, x: u8, k: u8, i: u8)
    by (bit_vector)
    requires
        k < 8,
        i < 8,
        x <= 1,
        f < (1u8 << k) || k == 0 && f == 0,
    ensures
        ((f | (x << k)) >> i) & 1u8 == (if i == k { x } else { (f >> i) & 1u8 }),
        k < 7 ==> (f | (x << k)) < (1u8 << (k + 1)),
        i >= k ==> (f >> i) & 1u8 == 0,
        f | (0u8 << k) == f,
{
}

/// Adding a literal leaves the flags as they are.
pub proof fn lemma_flags_literal(g: Seq<LzToken>, b: u8)
    requires
        g.len() < 8,
    ensures
        group_flags(g.push(LzToken::Literal(b))) == group_flags(g),
        group_bodies(g.push(LzToken::Literal(b))) == group_bodies(g) + seq![b],
{
    lemma_group_flags(g);
    let k = g.len() as u8;
    bv_flag_bits(group_flags(g), 0, k, 0);
    assert(g.push(LzToken::Literal(b)).drop_last() =~= g);
}

/// Adding a reference or a run sets the flag bit of its place.
pub proof fn lemma_flags_reference(g: Seq<LzToken>, t: LzToken)
    requires
        g.len() < 8,
        !(t is Literal),
    ensures
        group_flags(g.push(t)) == group_flags(g) | (1u8 << (g.len() as u8)),
        group_bodies(g.push(t)) == group_bodies(g) + token_body(t),
{
    assert(g.push(t).drop_last() =~= g);
}

proof fn lemma_group_flags(g: Seq<LzToken>)
    requires
        g.len() <= 8,
    ensures
        g.len() < 8 ==> (group_flags(g) as int) < (1u8 << (g.len() as u8)) as int,
        forall|i: int| 0 <= i < g.len() ==> #[trigger] ((group_flags(g) >> (i as u8)) & 1u8) == flag_of(g[i]),
    decreases g.len(),
{
    if g.len() == 0 {
        crate::bits::lemma_byte_facts(0, 0);
    } else {
        let prev = g.drop_last();
        lemma_group_flags(prev);
        let k = (g.len() - 1) as u8;
        let f = group_flags(prev);
        let x = flag_of(g.last());
        assert forall|i: int| 0 <= i < g.len() implies #[trigger] ((group_flags(g) >> (i as u8)) & 1u8) == flag_of(g[i]) by {
            bv_flag_bits(f, x, k, i as u8);
            if i < k {
                assert(prev[i] == g[i]);
            }
        }
        bv_flag_bits(f, x, k, 0);
    }
}

proof fn lemma_expand_step(out: Seq<u8>, ts: Seq<LzToken>, i: int)
    requires
        0 <= i < ts.len(),
    ensures
        expand(out, ts.take(i + 1)) == apply_token(expand(out, ts.take(i)), ts[i]),
{
    assert(ts.take(i + 1).drop_last() =~= ts.take(i));
}

proof fn lemma_tokens_ok_at(out: Seq<u8>, ts: Seq<LzToken>, i: int)
    requires
        tokens_ok(out, ts),
        0 <= i < ts.len(),
    ensures
        token_ok(expand(out, ts.take(i)), ts[i]),
    decreases ts.len(),
{
    if i < ts.len() - 1 {
        lemma_tokens_ok_at(out, ts.drop_last(), i);
        assert(ts.drop_last().take(i) =~= ts.take(i));
    } else {
        assert(ts.take(i) =~= ts.drop_last());
    }
}

pub proof fn lemma_apply_grows(out: Seq<u8>, t: LzToken)
    requires
        token_ok(out, t),
    ensures
        apply_token(out, t).len() > out.len(),
        apply_token(out, t).take(out.len() as int) == out,
{
    match t {
        LzToken::Literal(b) => {
            assert(out.push(b).take(out.len() as int) =~= out);
        },
        LzToken::Match(o, l) => {
            lemma_copy_back_len(out, o, l as nat);
        },
        LzToken::Run(bs) => {
            assert((out + bs).take(out.len() as int) =~= out);
        },
    }
}

proof fn lemma_expand_grows(out: Seq<u8>, ts: Seq<LzToken>, i: int, j: int)
    requires
        tokens_ok(out, ts),
        0 <= i <= j <= ts.len(),
    ensures
        expand(out, ts.take(i)).len() + (j - i) <= expand(out, ts.take(j)).len(),
    decreases j - i,
{
    if i < j {
        lemma_expand_grows(out, ts, i, j - 1);
        lemma_tokens_ok_at(out, ts, j - 1);
        lemma_expand_step(out, ts, j - 1);
        lemma_apply_grows(expand(out, ts.take(j - 1)), ts[j - 1]);
    }
}

proof fn lemma_group_bodies_split(g: Seq<LzToken>, i: int)
    requires
        0 <= i < g.len(),
    ensures
        group_bodies(g.take(i + 1)) == group_bodies(g.take(i)) + token_body(g[i]),
        group_bodies(g) == group_bodies(g.take(i + 1)) + group_bodies(g.skip(i + 1)),
    decreases g.len(),
{
    assert(g.take(i + 1).drop_last() =~= g.take(i));
    if i + 1 == g.len() {
        assert(g.take(i + 1) =~= g);
        assert(g.skip(i + 1) =~= Seq::<LzToken>::empty());
        assert(group_bodies(g) + Seq::<u8>::empty() =~= group_bodies(g));
    } else {
        lemma_group_bodies_split(g.drop_last(), i);
        assert(g.drop_last().take(i + 1) =~= g.take(i + 1));
        assert(g.drop_last().skip(i + 1) =~= g.skip(i + 1).drop_last());
        assert(g.skip(i + 1).last() == g.last());
        assert(group_bodies(g.take(i + 1)) + group_bodies(g.skip(i + 1).drop_last()) + token_body(g.last())
            =~= group_bodies(g.take(i + 1)) + (group_bodies(g.skip(i + 1).drop_last()) + token_body(g.last())));
    }
}

/// The tokens of one group decode one after the other.
proof fn lemma_decode_group(
    s: Seq<u8>,
    ts: Seq<LzToken>,
    a: int,
    g: Seq<LzToken>,
    q: int,
    i: int,
    size: nat,
)
    requires
        tokens_ok(seq![], ts),
        size == expand(seq![], ts).len(),
        0 <= a,
        a + g.len() <= ts.len(),
        1 <= g.len() <= 8,
        g == ts.subrange(a, a + g.len()),
        0 <= i <= g.len(),
        0 <= q,
        q + group_bodies(g).len() <= s.len(),
        s.subrange(q, q + group_bodies(g).len()) == group_bodies(g),
    ensures
        lzss_tokens(s, q + group_bodies(g.take(i)).len(), group_flags(g), i as nat, expand(seq![], ts.take(a + i)), size)
            == lzss_tokens(s, q + group_bodies(g).len(), group_flags(g), g.len(), expand(seq![], ts.take(a + g.len())), size),
    decreases g.len() - i,
{
    lemma_auto_spec_u16_to_from_le_bytes();
    if i < g.len() {
        lemma_decode_group(s, ts, a, g, q, i + 1, size);
        lemma_group_flags(g);
        lemma_group_bodies_split(g, i);
        let t = g[i];
        assert(t == ts[a + i]);
        let out = expand(seq![], ts.take(a + i));
        lemma_tokens_ok_at(seq![], ts, a + i);
        lemma_expand_step(seq![], ts, a + i);
        lemma_expand_grows(seq![], ts, a + i + 1, ts.len() as int);
        assert(ts.take(ts.len() as int) =~= ts);
        lemma_apply_grows(out, t);
        let p = q + group_bodies(g.take(i)).len();
        let body = token_body(t);
        let rest_len = group_bodies(g.skip(i + 1)).len();
        assert(group_bodies(g).len() == group_bodies(g.take(i)).len() + body.len() + rest_len);
        assert forall|j: int| 0 <= j < body.len() implies #[trigger] s[p + j] == body[j] by {
            assert(s.subrange(q, q + group_bodies(g).len())[group_bodies(g.take(i)).len() + j] == s[p + j]);
            assert(group_bodies(g.take(i + 1))[group_bodies(g.take(i)).len() + j] == body[j]);
            assert(group_bodies(g)[group_bodies(g.take(i)).len() + j] == group_bodies(g.take(i + 1))[group_bodies(g.take(i)).len() + j]);
        }
        assert(((group_flags(g) >> (i as u8)) & 1u8) == flag_of(t));
        assert(g.take(i + 1).len() == i + 1);
        let next = expand(seq![], ts.take(a + i + 1));
        assert(next == apply_token(out, t));
        assert(next.len() <= size);
        assert(p + body.len() <= s.len());
        assert(q + group_bodies(g.take(i + 1)).len() == p + body.len());
        match t {
            LzToken::Literal(b) => {
                assert(s[p + 0] == body[0]);
                assert(s[p] == b);
                assert(lzss_tokens(s, p, group_flags(g), i as nat, out, size) == lzss_tokens(s, p + 1, group_flags(g), (i + 1) as nat, out.push(b), size));
            },
            LzToken::Match(o, l) => {
                lemma_copy_back_len(out, o, l as nat);
                assert(spec_u16_to_le_bytes(o as u16).len() == 2);
                assert(s[p + 0] == body[0] && s[p + 1] == body[1]);
                assert(s.subrange(p, p + 2) =~= spec_u16_to_le_bytes(o as u16));
                assert(spec_u16_from_le_bytes(s.subrange(p, p + 2)) as int == o);
                assert(s[p + 2] == body[2]);
                assert(s[p + 2] + 3 == l);
                assert(lzss_tokens(s, p, group_flags(g), i as nat, out, size) == lzss_tokens(s, p + 3, group_flags(g), (i + 1) as nat, copy_back(out, o, l as nat), size));
            },
            LzToken::Run(bs) => {
                assert(spec_u16_to_le_bytes(0).len() == 2);
                assert(spec_u16_to_le_bytes(bs.len() as u16).len() == 2);
                assert(s[p + 0] == body[0] && s[p + 1] == body[1] && s[p + 2] == body[2] && s[p + 3] == body[3]);
                assert(s.subrange(p, p + 2) =~= spec_u16_to_le_bytes(0));
                assert(s.subrange(p + 2, p + 4) =~= spec_u16_to_le_bytes(bs.len() as u16));
                assert(spec_u16_from_le_bytes(s.subrange(p + 2, p + 4)) as int == bs.len());
                assert forall|k: int| 0 <= k < bs.len() implies s.subrange(p + 4, p + 4 + bs.len())[k] == bs[k] by {
                    assert(s[p + (4 + k)] == body[4 + k]);
                }
                assert(s.subrange(p + 4, p + 4 + bs.len()) =~= bs);
                assert(lzss_tokens(s, p, group_flags(g), i as nat, out, size) == lzss_tokens(s, p + 4 + bs.len(), group_flags(g), (i + 1) as nat, out + bs, size));
            },
        }
    } else {
        assert(g.take(i) =~= g);
    }
}

proof fn lemma_serialize_split(ts: Seq<LzToken>)
    requires
        ts.len() > 8,
    ensures
        serialize(ts) == group_bytes(ts.take(8)) + serialize(ts.skip(8)),
{
}

/// Decoding the serialized tokens from the group that starts at token `a`.
proof fn lemma_decode_from(s: Seq<u8>, ts: Seq<LzToken>, a: int, p: int, flags: u8, size: nat)
    requires
        tokens_ok(seq![], ts),
        size == expand(seq![], ts).len(),
        0 <= a <= ts.len(),
        0 <= p,
        p + serialize(ts.skip(a)).len() <= s.len(),
        s.subrange(p, p + serialize(ts.skip(a)).len()) == serialize(ts.skip(a)),
    ensures
        lzss_tokens(s, p, flags, 8, expand(seq![], ts.take(a)), size) == Some(expand(seq![], ts)),
    decreases ts.len() - a,
{
    assert(ts.take(ts.len() as int) =~= ts);
    let rest = ts.skip(a);
    if a == ts.len() {
    } else {
        lemma_expand_grows(seq![], ts, a, ts.len() as int);
        let n = if rest.len() <= 8 { rest.len() } else { 8 };
        let g = rest.take(n as int);
        assert(g =~= ts.subrange(a, a + n));
        let gb = group_bytes(g);
        if rest.len() > 8 {
            lemma_serialize_split(rest);
        } else {
            assert(rest.take(n as int) =~= rest);
        }
        assert(s.subrange(p, p + gb.len()) =~= gb) by {
            assert forall|j: int| 0 <= j < gb.len() implies s.subrange(p, p + gb.len())[j] == gb[j] by {
                assert(s.subrange(p, p + serialize(ts.skip(a)).len())[j] == serialize(ts.skip(a))[j]);
            }
        }
        assert(s.subrange(p, p + gb.len())[0] == s[p]);
        assert(s[p] == group_flags(g));
        assert forall|j: int| 0 <= j < group_bodies(g).len() implies s.subrange(p + 1, p + 1 + group_bodies(g).len())[j] == group_bodies(g)[j] by {
            assert(s.subrange(p, p + gb.len())[1 + j] == gb[1 + j]);
        }
        assert(s.subrange(p + 1, p + 1 + group_bodies(g).len()) =~= group_bodies(g));
        assert(g.take(0) =~= Seq::<LzToken>::empty());
        lemma_decode_group(s, ts, a, g, p + 1, 0, size);
        let a2 = a + n;
        let p2 = p + 1 + group_bodies(g).len();
        if a2 == ts.len() {
            assert(ts.take(a2) =~= ts);
            lemma_lzss_tokens_done(s, p2, group_flags(g), n, expand(seq![], ts), size);
        } else {
            assert(n == 8);
            assert(rest.skip(8) =~= ts.skip(a2));
            assert(s.subrange(p2, p2 + serialize(ts.skip(a2)).len()) =~= serialize(ts.skip(a2))) by {
                assert forall|j: int| 0 <= j < serialize(ts.skip(a2)).len() implies s.subrange(p2, p2 + serialize(ts.skip(a2)).len())[j]
                    == serialize(ts.skip(a2))[j] by {
                    assert(s.subrange(p, p + serialize(ts.skip(a)).len())[gb.len() + j] == serialize(ts.skip(a))[gb.len() + j]);
                }
            }
            lemma_decode_from(s, ts, a2, p2, group_flags(g), size);
        }
    }
}

proof fn lemma_lzss_tokens_done(s: Seq<u8>, p: int, flags: u8, bit: nat, out: Seq<u8>, size: nat)
    requires
        out.len() >= size,
    ensures
        lzss_tokens(s, p, flags, bit, out, size) == Some(out),
{
}

/// A compressed stream of valid tokens decodes to the data they stand for.
pub proof fn lemma_decode_serialized(ts: Seq<LzToken>, s: Seq<u8>)
    requires
        tokens_ok(seq![], ts),
        expand(seq![], ts).len() <= u64::MAX,
        s == seq![MODE_COMPRESSED] + spec_u64_to_le_bytes(expand(seq![], ts).len() as u64) + serialize(ts),
    ensures
        lzss_decode_spec(s) == Some(expand(seq![], ts)),
{
    lemma_auto_spec_u64_to_from_le_bytes();
    let n = expand(seq![], ts).len();
    assert(s.subrange(1, 9) =~= spec_u64_to_le_bytes(n as u64));
    assert(ts.skip(0) =~= ts);
    assert(ts.take(0) =~= Seq::<LzToken>::empty());
    assert(s.subrange(9, 9 + serialize(ts).len() as int) =~= serialize(ts));
    lemma_decode_from(s, ts, 0, 9, 0, n);
}

/// The stored form decodes to the data.
pub proof fn lemma_decode_stored(data: Seq<u8>)
    requires
        data.len() <= u64::MAX,
    ensures
        lzss_decode_spec(stored_form(data)) == Some(data),
{
    lemma_auto_spec_u64_to_from_le_bytes();
    let s = stored_form(data);
    assert(s.subrange(1, 9) =~= spec_u64_to_le_bytes(data.len() as u64));
    assert(s.subrange(9, 9 + data.len() as int) =~= data);
}

/// Serializing more tokens after a whole number of groups appends their group.
pub proof fn lemma_serialize_append(done: Seq<LzToken>, cur: Seq<LzToken>)
    requires
        done.len() % 8 == 0,
        1 <= cur.len() <= 8,
    ensures
        serialize(done + cur) == serialize(done) + group_bytes(cur),
    decreases done.len(),
{
    if done.len() == 0 {
        assert(done + cur =~= cur);
        assert(serialize(done) + group_bytes(cur) =~= group_bytes(cur));
    } else {
        let all = done + cur;
        assert(all.take(8) =~= done.take(8));
        assert(all.skip(8) =~= done.skip(8) + cur);
        lemma_serialize_append(done.skip(8), cur);
        if done.len() == 8 {
            assert(done.skip(8) =~= Seq::<LzToken>::empty());
            assert(done.take(8) =~= done);
        } else {
            assert(serialize(done) == group_bytes(done.take(8)) + serialize(done.skip(8)));
        }
        assert(group_bytes(done.take(8)) + (serialize(done.skip(8)) + group_bytes(cur)) =~= group_bytes(done.take(8))
            + serialize(done.skip(8)) + group_bytes(cur));
    }
}

} // verus!
