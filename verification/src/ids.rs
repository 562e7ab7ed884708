use vstd::prelude::*;
use crate::error::{AppError, msg_with_number};

verus! {

/// Identifier of a compression algorithm as stored in the archive.
#[derive(Debug, Clone, Copy, PartialEq, Eq, Structural)]
pub enum CompressionId {
    NoCompression,
    RLE,
    Huffman,
    LZSS,
    Deflate,
}

/// Identifier of a cipher as stored in the archive.
#[derive(Debug, Clone, Copy, PartialEq, Eq, Structural)]
pub enum CipherId {
    NoCipher,
    Xor,
}

/// Identifier of an error-correcting code as stored in the archive.
#[derive(Debug, Clone, Copy, PartialEq, Eq, Structural)]
pub enum FecId {
    NoFec,
    ReedSolomon,
}

impl CompressionId {
    /// The number that stands for this identifier in the archive.
    pub open spec fn code(self) -> u8 {
        match self {
            CompressionId::NoCompression => 0,
            CompressionId::RLE => 1,
            CompressionId::Huffman => 2,
            CompressionId::LZSS => 3,
            CompressionId::Deflate => 4,
        }
    }

    /// The identifier whose number is `v`, if there is one.
    pub open spec fn decode(v: u8) -> Option<CompressionId> {
        if v == 0 {
            Some(CompressionId::NoCompression)
        } else if v == 1 {
            Some(CompressionId::RLE)
        } else if v == 2 {
            Some(CompressionId::Huffman)
        } else if v == 3 {
            Some(CompressionId::LZSS)
        } else if v == 4 {
            Some(CompressionId::Deflate)
        } else {
            None
        }
    }

    /// The short lower-case name of this algorithm.
    pub open spec fn name(self) -> Seq<char> {
        match self {
            CompressionId::NoCompression => "none"@,
            CompressionId::RLE => "rle"@,
            CompressionId::Huffman => "huffman"@,
            CompressionId::LZSS => "lzss"@,
            CompressionId::Deflate => "deflate"@,
        }
    }

    pub fn as_u8(self) -> (r: u8)
        ensures
            r == self.code(),
    {
        match self {
            CompressionId::NoCompression => 0,
            CompressionId::RLE => 1,
            CompressionId::Huffman => 2,
            CompressionId::LZSS => 3,
            CompressionId::Deflate => 4,
        }
    }

    pub fn from_u8(v: u8) -> (r: Result<CompressionId, AppError>)
        ensures
            r is Ok <==> CompressionId::decode(v) is Some,
            r matches Ok(id) ==> CompressionId::decode(v) == Some(id) && id.code() == v,
            r matches Err(e) ==> e is CorruptArchive,
    {
        match v {
            0 => Ok(CompressionId::NoCompression),
            1 => Ok(CompressionId::RLE),
            2 => Ok(CompressionId::Huffman),
            3 => Ok(CompressionId::LZSS),
            4 => Ok(CompressionId::Deflate),
            other => Err(AppError::CorruptArchive(
                msg_with_number("Неизвестный compression_id: ", other as u64),
            )),
        }
    }

    pub fn as_str(self) -> (r: &'static str)
        ensures
            r@ == self.name(),
    {
        match self {
            CompressionId::NoCompression => "none",
            CompressionId::RLE => "rle",
            CompressionId::Huffman => "huffman",
            CompressionId::LZSS => "lzss",
            CompressionId::Deflate => "deflate",
        }
    }
}

impl CipherId {
    /// The number that stands for this identifier in the archive.
    pub open spec fn code(self) -> u8 {
        match self {
            CipherId::NoCipher => 0,
            CipherId::Xor => 1,
        }
    }

    /// The identifier whose number is `v`, if there is one.
    pub open spec fn decode(v: u8) -> Option<CipherId> {
        if v == 0 {
            Some(CipherId::NoCipher)
        } else if v == 1 {
            Some(CipherId::Xor)
        } else {
            None
        }
    }

    /// The short lower-case name of this cipher.
    pub open spec fn name(self) -> Seq<char> {
        match self {
            CipherId::NoCipher => "none"@,
            CipherId::Xor => "xor"@,
        }
    }

    pub fn as_u8(self) -> (r: u8)
        ensures
            r == self.code(),
    {
        match self {
            CipherId::NoCipher => 0,
            CipherId::Xor => 1,
        }
    }

    pub fn from_u8(v: u8) -> (r: Result<CipherId, AppError>)
        ensures
            r is Ok <==> CipherId::decode(v) is Some,
            r matches Ok(id) ==> CipherId::decode(v) == Some(id) && id.code() == v,
            r matches Err(e) ==> e is CorruptArchive,
    {
        match v {
            0 => Ok(CipherId::NoCipher),
            1 => Ok(CipherId::Xor),
            other => Err(AppError::CorruptArchive(
                msg_with_number("Неизвестный cipher_id: ", other as u64),
            )),
        }
    }

    pub fn as_str(self) -> (r: &'static str)
        ensures
            r@ == self.name(),
    {
        match self {
            CipherId::NoCipher => "none",
            CipherId::Xor => "xor",
        }
    }
}

impl FecId {
    /// The number that stands for this identifier in the archive.
    pub open spec fn code(self) -> u8 {
        match self {
            FecId::NoFec => 0,
            FecId::ReedSolomon => 1,
        }
    }

    /// The identifier whose number is `v`, if there is one.
    pub open spec fn decode(v: u8) -> Option<FecId> {
        if v == 0 {
            Some(FecId::NoFec)
        } else if v == 1 {
            Some(FecId::ReedSolomon)
        } else {
            None
        }
    }

    /// The short lower-case name of this code.
    pub open spec fn name(self) -> Seq<char> {
        match self {
            FecId::NoFec => "none"@,
            FecId::ReedSolomon => "reed-solomon"@,
        }
    }

    pub fn as_u8(self) -> (r: u8)
        ensures
            r == self.code(),
    {
        match self {
            FecId::NoFec => 0,
            FecId::ReedSolomon => 1,
        }
    }

    pub fn from_u8(v: u8) -> (r: Result<FecId, AppError>)
        ensures
            r is Ok <==> FecId::decode(v) is Some,
            r matches Ok(id) ==> FecId::decode(v) == Some(id) && id.code() == v,
            r matches Err(e) ==> e is CorruptArchive,
    {
        match v {
            0 => Ok(FecId::NoFec),
            1 => Ok(FecId::ReedSolomon),
            other => Err(AppError::CorruptArchive(
                msg_with_number("Неизвестный fec_id: ", other as u64),
            )),
        }
    }

    pub fn as_str(self) -> (r: &'static str)
        ensures
            r@ == self.name(),
    {
        match self {
            FecId::NoFec => "none",
            FecId::ReedSolomon => "reed-solomon",
        }
    }
}

/// Reading back the number of an identifier gives the identifier.
pub proof fn lemma_id_codes_round_trip(c: CompressionId, ci: CipherId, f: FecId)
    ensures
        CompressionId::decode(c.code()) == Some(c),
        CipherId::decode(ci.code()) == Some(ci),
        FecId::decode(f.code()) == Some(f),
{
}

/// The compression names in the order of their stored numbers.
pub open spec fn compression_names_by_number() -> Seq<Seq<char>> {
    seq!["none"@, "rle"@, "huffman"@, "lzss"@, "deflate"@]
}

/// The cipher names in the order of their stored numbers.
pub open spec fn cipher_names_by_number() -> Seq<Seq<char>> {
    seq!["none"@, "xor"@]
}

/// The error-correcting code names in the order of their stored numbers.
pub open spec fn fec_names_by_number() -> Seq<Seq<char>> {
    seq!["none"@, "reed-solomon"@]
}

/// The numbers stored in an archive are fixed by the format: a compression
/// is stored as its place in none, rle, huffman, lzss, deflate (0 to 4), a
/// cipher as its place in none, xor, an error-correcting code as its place
/// in none, reed-solomon; a number is read back as the identifier with that
/// place, and a number past the list is no identifier.
pub proof fn law_stored_numbers(c: CompressionId, ci: CipherId, f: FecId, v: u8)
    ensures
        c.code() < compression_names_by_number().len(),
        compression_names_by_number()[c.code() as int] == c.name(),
        CompressionId::decode(v) is Some <==> v < compression_names_by_number().len(),
        CompressionId::decode(v) matches Some(d) ==> compression_names_by_number()[v as int] == d.name(),
        ci.code() < cipher_names_by_number().len(),
        cipher_names_by_number()[ci.code() as int] == ci.name(),
        CipherId::decode(v) is Some <==> v < cipher_names_by_number().len(),
        CipherId::decode(v) matches Some(d) ==> cipher_names_by_number()[v as int] == d.name(),
        f.code() < fec_names_by_number().len(),
        fec_names_by_number()[f.code() as int] == f.name(),
        FecId::decode(v) is Some <==> v < fec_names_by_number().len(),
        FecId::decode(v) matches Some(d) ==> fec_names_by_number()[v as int] == d.name(),
        CompressionId::NoCompression.code() == 0 && CompressionId::RLE.code() == 1 && CompressionId::Huffman.code() == 2
            && CompressionId::LZSS.code() == 3 && CompressionId::Deflate.code() == 4,
        CipherId::NoCipher.code() == 0 && CipherId::Xor.code() == 1,
        FecId::NoFec.code() == 0 && FecId::ReedSolomon.code() == 1,
{
}

} // verus!
