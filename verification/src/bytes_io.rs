//! Little-endian fields in byte buffers.
use vstd::prelude::*;
use vstd::bytes::*;
use vstd::slice::slice_subrange;

verus! {

/// Appends all of `bytes` to `out`.
pub fn append_slice(out: &mut Vec<u8>, bytes: &[u8])
    ensures
        final(out)@ == old(out)@ + bytes@,
{
    let ghost start = out@;
    let mut i: usize = 0;
    while i < bytes.len()
        invariant
            i <= bytes.len(),
            out@ == start + bytes@.take(i as int),
        decreases bytes.len() - i,
    {
        out.push(bytes[i]);
        proof {
            assert(bytes@.take((i + 1) as int) =~= bytes@.take(i as int).push(bytes@[i as int]));
        }
        i += 1;
    }
    proof {
        assert(bytes@.take(bytes.len() as int) =~= bytes@);
    }
}

pub fn push_u16_le(out: &mut Vec<u8>, x: u16)
    ensures
        final(out)@ == old(out)@ + spec_u16_to_le_bytes(x),
{
    let b = u16_to_le_bytes(x);
    append_slice(out, b.as_slice());
}

pub fn push_u32_le(out: &mut Vec<u8>, x: u32)
    ensures
        final(out)@ == old(out)@ + spec_u32_to_le_bytes(x),
{
    let b = u32_to_le_bytes(x);
    append_slice(out, b.as_slice());
}

pub fn push_u64_le(out: &mut Vec<u8>, x: u64)
    ensures
        final(out)@ == old(out)@ + spec_u64_to_le_bytes(x),
{
    let b = u64_to_le_bytes(x);
    append_slice(out, b.as_slice());
}

pub fn read_u16_at(bytes: &[u8], pos: usize) -> (r: u16)
    requires
        pos + 2 <= bytes@.len(),
    ensures
        r == spec_u16_from_le_bytes(bytes@.subrange(pos as int, pos + 2)),
{
    let len = bytes.len();
    u16_from_le_bytes(slice_subrange(bytes, pos, pos + 2))
}

pub fn read_u32_at(bytes: &[u8], pos: usize) -> (r: u32)
    requires
        pos + 4 <= bytes@.len(),
    ensures
        r == spec_u32_from_le_bytes(bytes@.subrange(pos as int, pos + 4)),
{
    let len = bytes.len();
    u32_from_le_bytes(slice_subrange(bytes, pos, pos + 4))
}

pub fn read_u64_at(bytes: &[u8], pos: usize) -> (r: u64)
    requires
        pos + 8 <= bytes@.len(),
    ensures
        r == spec_u64_from_le_bytes(bytes@.subrange(pos as int, pos + 8)),
{
    let len = bytes.len();
    u64_from_le_bytes(slice_subrange(bytes, pos, pos + 8))
}

/// The little-endian encodings have fixed lengths and read back to their value.
pub proof fn lemma_le_round_trips()
    ensures
        forall|x: u16| #![trigger spec_u16_to_le_bytes(x)] spec_u16_to_le_bytes(x).len() == 2 && spec_u16_from_le_bytes(spec_u16_to_le_bytes(x)) == x,
        forall|x: u32| #![trigger spec_u32_to_le_bytes(x)] spec_u32_to_le_bytes(x).len() == 4 && spec_u32_from_le_bytes(spec_u32_to_le_bytes(x)) == x,
        forall|x: u64| #![trigger spec_u64_to_le_bytes(x)] spec_u64_to_le_bytes(x).len() == 8 && spec_u64_from_le_bytes(spec_u64_to_le_bytes(x)) == x,
{
    lemma_auto_spec_u16_to_from_le_bytes();
    lemma_auto_spec_u32_to_from_le_bytes();
    lemma_auto_spec_u64_to_from_le_bytes();
}

} // verus!
