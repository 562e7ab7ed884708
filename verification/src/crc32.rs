//! CRC32 with the IEEE 802.3 polynomial (reflected, 0xEDB88320).
use vstd::prelude::*;
use crate::ids::CipherId;
use crate::pipeline_settings::PipelineSettings;

verus! {

pub const POLY: u32 = 0xEDB88320;

/// `i` rounds of the bitwise CRC division applied to `b`.
pub open spec fn table_rounds(b: u32, i: nat) -> u32
    decreases i,
{
    if i == 0 {
        b
    } else {
        let x = table_rounds(b, (i - 1) as nat);
        if x & 1 == 1 {
            (x >> 1u32) ^ POLY
        } else {
            x >> 1u32
        }
    }
}

/// One byte folded into the running CRC state.
pub open spec fn crc_step(state: u32, byte: u8) -> u32 {
    table_rounds((state ^ (byte as u32)) & 0xFF, 8) ^ (state >> 8u32)
}

/// The running state after folding in all of `data`, starting from `state`.
pub open spec fn crc_fold(state: u32, data: Seq<u8>) -> u32
    decreases data.len(),
{
    if data.len() == 0 {
        state
    } else {
        crc_step(crc_fold(state, data.drop_last()), data.last())
    }
}

/// The CRC32 of `data`.
pub open spec fn crc32_spec(data: Seq<u8>) -> u32 {
    crc_fold(0xFFFF_FFFF, data) ^ 0xFFFF_FFFF
}

fn table_entry(byte: u32) -> (r: u32)
    ensures
        r == table_rounds(byte, 8),
{
    let mut b = byte;
    let mut i: u32 = 0;
    while i < 8
        invariant
            i <= 8,
            b == table_rounds(byte, i as nat),
        decreases 8 - i,
    {
        b = if b & 1 == 1 {
            (b >> 1) ^ POLY
        } else {
            b >> 1
        };
        i += 1;
    }
    b
}

/// An incremental CRC32 computation.
pub struct Crc32 {
    state: u32,
}

impl View for Crc32 {
    type V = u32;

    closed spec fn view(&self) -> u32 {
        self.state
    }
}

impl Crc32 {
    pub fn new() -> (r: Crc32)
        ensures
            r@ == 0xFFFF_FFFFu32,
    {
        Crc32 { state: 0xFFFF_FFFF }
    }

    /// Folds `data` into the running computation; may be called any number of times.
    pub fn update(&mut self, data: &[u8])
        ensures
            final(self)@ == crc_fold(old(self)@, data@),
    {
        let ghost start = self.state;
        let mut i: usize = 0;
        while i < data.len()
            invariant
                i <= data.len(),
                self.state == crc_fold(start, data@.take(i as int)),
            decreases data.len() - i,
        {
            let byte = data[i];
            let idx: u32 = (self.state ^ byte as u32) & 0xFF;
            let entry: u32 = table_entry(idx);
            self.state = entry ^ (self.state >> 8);
            proof {
                assert(data@.take((i + 1) as int).drop_last() =~= data@.take(i as int));
            }
            i += 1;
        }
        proof {
            assert(data@.take(data.len() as int) =~= data@);
        }
    }

    /// The CRC32 of everything folded in so far.
    pub fn finalize(self) -> (r: u32)
        ensures
            r == self@ ^ 0xFFFF_FFFFu32,
    {
        self.state ^ 0xFFFF_FFFF
    }

    /// The running state, without the final inversion.
    pub fn into_state(self) -> (r: u32)
        ensures
            r == self@,
    {
        self.state
    }
}

/// Feeding data in two parts gives the same state as feeding it at once.
pub proof fn law_crc_fold_concat(state: u32, a: Seq<u8>, b: Seq<u8>)
    ensures
        crc_fold(crc_fold(state, a), b) == crc_fold(state, a + b),
    decreases b.len(),
{
    if b.len() == 0 {
        assert(a + b =~= a);
    } else {
        law_crc_fold_concat(state, a, b.drop_last());
        assert((a + b).drop_last() =~= a + b.drop_last());
        assert((a + b).last() == b.last());
    }
}

/// One shift of the reflected CRC-32 register: the low bit leaves, and when
/// it was set the IEEE 802.3 polynomial (0x04C11DB7, bit-reversed) is
/// XOR-ed in.
pub open spec fn register_shift(x: u32) -> u32 {
    if x & 1 == 1 {
        (x >> 1u32) ^ 0xEDB8_8320u32
    } else {
        x >> 1u32
    }
}

/// `k` shifts of the whole 32-bit register.
pub open spec fn register_shifts(x: u32, k: nat) -> u32
    decreases k,
{
    if k == 0 {
        x
    } else {
        register_shift(register_shifts(x, (k - 1) as nat))
    }
}

/// Bit facts of the register: a shift of a word whose low byte is clear
/// moves it down by one, apart from the rest; a word splits into its low
/// byte and the rest; XOR-ing a byte leaves the bits above it.
proof fn lemma_register_bits(x: u32, h: u32, k: u32, st: u32, b: u32)
    by (bit_vector)
    ensures
        h & 0xFFu32 == 0 && k < 8 ==> register_shift(x ^ (h >> k)) == register_shift(x) ^ (h >> ((k + 1) as u32)),
        h >> 0u32 == h,
        (st & 0xFFu32) ^ (st & 0xFFFF_FF00u32) == st,
        (st & 0xFFFF_FF00u32) & 0xFFu32 == 0,
        (st & 0xFFFF_FF00u32) >> 8u32 == st >> 8u32,
        b < 256 ==> (st ^ b) >> 8u32 == st >> 8u32,
{
}

/// Shifting a word whose high part has a clear low byte: the low byte goes
/// through the table rounds and the high part just moves down.
proof fn lemma_register_shifts_split(l: u32, h: u32, k: nat)
    requires
        h & 0xFFu32 == 0,
        k <= 8,
    ensures
        register_shifts(l ^ h, k) == table_rounds(l, k) ^ (h >> (k as u32)),
    decreases k,
{
    if k == 0 {
        lemma_register_bits(l, h, 0, 0, 0);
    } else {
        let k1 = (k - 1) as nat;
        lemma_register_shifts_split(l, h, k1);
        lemma_register_bits(table_rounds(l, k1), h, k1 as u32, 0, 0);
        assert(((k1 as u32) + 1) as u32 == k as u32);
    }
}

/// Folding a byte into the CRC is the textbook bitwise CRC-32: XOR the whole
/// byte into the low end of the register, then shift the register eight
/// times, XOR-ing in the polynomial whenever a set bit leaves.
pub proof fn law_crc_step_bitwise(state: u32, byte: u8)
    ensures
        crc_step(state, byte) == register_shifts(state ^ (byte as u32), 8),
{
    let s = state ^ (byte as u32);
    let l = s & 0xFFu32;
    let h = s & 0xFFFF_FF00u32;
    lemma_register_bits(0, 0, 0, s, 0);
    lemma_register_bits(0, 0, 0, state, byte as u32);
    lemma_register_shifts_split(l, h, 8);
}

/// The bitwise CRC-32 register after `data`, from all ones.
pub open spec fn register_after(data: Seq<u8>) -> u32
    decreases data.len(),
{
    if data.len() == 0 {
        0xFFFF_FFFFu32
    } else {
        register_shifts(register_after(data.drop_last()) ^ (data.last() as u32), 8)
    }
}

/// The CRC32 of `data` is the standard CRC-32: the register starts at all
/// ones, takes each byte bitwise, and is inverted at the end.
pub proof fn law_crc32_standard(data: Seq<u8>)
    ensures
        crc32_spec(data) == register_after(data) ^ 0xFFFF_FFFFu32,
        crc_fold(0xFFFF_FFFF, data) == register_after(data),
    decreases data.len(),
{
    if data.len() > 0 {
        law_crc32_standard(data.drop_last());
        law_crc_step_bitwise(crc_fold(0xFFFF_FFFF, data.drop_last()), data.last());
    }
}

/// The CRC32 of `data`.
pub fn crc32_of(data: &[u8]) -> (r: u32)
    ensures
        r == crc32_spec(data@),
{
    let mut crc = Crc32::new();
    crc.update(data);
    crc.finalize()
}

/// The checksum stored for a file: files without a cipher store the
/// placeholder `u32::MAX`; the others store the CRC32 of their data.
pub open spec fn pipeline_checksum(data: Seq<u8>, settings: PipelineSettings) -> u32 {
    if settings.cipher == CipherId::NoCipher {
        u32::MAX
    } else {
        crc32_spec(data)
    }
}

pub fn crc32_for_pipeline(data: &[u8], pipeline_settings: PipelineSettings) -> (r: u32)
    ensures
        r == pipeline_checksum(data@, pipeline_settings),
{
    if pipeline_settings.cipher == CipherId::NoCipher {
        return u32::MAX;
    }
    crc32_of(data)
}

} // verus!
