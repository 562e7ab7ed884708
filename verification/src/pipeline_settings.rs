use vstd::prelude::*;
use crate::error::{AppError, msg_with_number};
use crate::ids::{CipherId, CompressionId, FecId};

verus! {

/// The full set of algorithms applied to one file. Every archive entry
/// stores its own copy.
#[derive(Debug, Clone, Copy, PartialEq, Eq, Structural)]
pub struct PipelineSettings {
    pub compression: CompressionId,
    pub cipher: CipherId,
    pub fec: FecId,
}

pub const COMPRESSION_MASK: u16 = 0x000F;
pub const CIPHER_MASK: u16 = 0x00F0;
pub const FEC_MASK: u16 = 0x0F00;
pub const RESERVED_MASK: u16 = 0xF000;
pub const CIPHER_SHIFT: u16 = 4;
pub const FEC_SHIFT: u16 = 8;

/// The 16-bit descriptor of a pipeline: compression in bits 0..4, cipher in
/// bits 4..8, error-correcting code in bits 8..12, the rest zero.
pub open spec fn descriptor_of(c: u8, ci: u8, f: u8) -> u16 {
    (c as u16 | ((ci as u16) << 4u16) | ((f as u16) << 8u16)) as u16
}

/// What reading `d` as a descriptor gives.
pub open spec fn settings_from_descriptor(d: u16) -> Option<PipelineSettings> {
    if d & RESERVED_MASK != 0 {
        None
    } else {
        match (
            CompressionId::decode((d & COMPRESSION_MASK) as u8),
            CipherId::decode(((d & CIPHER_MASK) >> 4u16) as u8),
            FecId::decode(((d & FEC_MASK) >> 8u16) as u8),
        ) {
            (Some(c), Some(ci), Some(f)) => Some(PipelineSettings { compression: c, cipher: ci, fec: f }),
            _ => None,
        }
    }
}

impl PipelineSettings {
    /// The pipeline that applies nothing.
    pub open spec fn spec_default() -> PipelineSettings {
        PipelineSettings {
            compression: CompressionId::NoCompression,
            cipher: CipherId::NoCipher,
            fec: FecId::NoFec,
        }
    }

    pub open spec fn descriptor(self) -> u16 {
        descriptor_of(self.compression.code(), self.cipher.code(), self.fec.code())
    }

    pub fn default() -> (r: PipelineSettings)
        ensures
            r == PipelineSettings::spec_default(),
    {
        PipelineSettings {
            compression: CompressionId::NoCompression,
            cipher: CipherId::NoCipher,
            fec: FecId::NoFec,
        }
    }

    pub fn to_descriptor(self) -> (r: u16)
        ensures
            r == self.descriptor(),
    {
        let c = self.compression.as_u8() as u16;
        let ci = self.cipher.as_u8() as u16;
        let f = self.fec.as_u8() as u16;
        c | (ci << CIPHER_SHIFT) | (f << FEC_SHIFT)
    }

    pub fn from_descriptor(descriptor: u16) -> (r: Result<PipelineSettings, AppError>)
        ensures
            r is Ok <==> settings_from_descriptor(descriptor) is Some,
            r matches Ok(s) ==> settings_from_descriptor(descriptor) == Some(s),
            r matches Err(e) ==> e is CorruptArchive,
    {
        if descriptor & RESERVED_MASK != 0 {
            return Err(AppError::CorruptArchive(msg_with_number(
                "Неизвестные флаги pipeline: ",
                (descriptor & RESERVED_MASK) as u64,
            )));
        }
        let compression = CompressionId::from_u8((descriptor & COMPRESSION_MASK) as u8)?;
        let cipher = CipherId::from_u8(((descriptor & CIPHER_MASK) >> CIPHER_SHIFT) as u8)?;
        let fec = FecId::from_u8(((descriptor & FEC_MASK) >> FEC_SHIFT) as u8)?;
        Ok(PipelineSettings { compression, cipher, fec })
    }
}

/// Reading back the descriptor of a pipeline gives the pipeline.
pub proof fn lemma_descriptor_round_trip(s: PipelineSettings)
    ensures
        settings_from_descriptor(s.descriptor()) == Some(s),
{
    let c = s.compression.code();
    let ci = s.cipher.code();
    let f = s.fec.code();
    assert(c <= 4 && ci <= 1 && f <= 1);
    let d = descriptor_of(c, ci, f);
    assert(d & 0xF000u16 == 0 && (d & 0x000Fu16) as u8 == c && ((d & 0x00F0u16) >> 4u16) as u8 == ci
        && ((d & 0x0F00u16) >> 8u16) as u8 == f) by (bit_vector)
        requires
            c <= 4 && ci <= 1 && f <= 1,
            d == (c as u16 | ((ci as u16) << 4u16) | ((f as u16) << 8u16)) as u16,
    ;
}

/// A descriptor that reads as a pipeline is exactly that pipeline's descriptor.
pub proof fn lemma_descriptor_canonical(d: u16)
    requires
        settings_from_descriptor(d) is Some,
    ensures
        settings_from_descriptor(d).unwrap().descriptor() == d,
{
    let s = settings_from_descriptor(d).unwrap();
    let c = s.compression.code();
    let ci = s.cipher.code();
    let f = s.fec.code();
    assert(c == (d & 0x000Fu16) as u8);
    assert(ci == ((d & 0x00F0u16) >> 4u16) as u8);
    assert(f == ((d & 0x0F00u16) >> 8u16) as u8);
    assert(d == (c as u16 | ((ci as u16) << 4u16) | ((f as u16) << 8u16)) as u16) by (bit_vector)
        requires
            d & 0xF000u16 == 0,
            c == (d & 0x000Fu16) as u8,
            ci == ((d & 0x00F0u16) >> 4u16) as u8,
            f == ((d & 0x0F00u16) >> 8u16) as u8,
    ;
}

} // verus!
