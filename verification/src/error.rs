use vstd::prelude::*;
use vstd::string::StringExecFns;

verus! {

/// The single error type of the library. Every subsystem (compression,
/// ciphers, error correction, archive format, command line) reports its
/// failures through one of these variants.
#[derive(Debug, Clone)]
pub enum AppError {
    /// A read or write failed; the text describes the operating-system error.
    Io(String),
    /// The archive is damaged or has an incompatible format.
    CorruptArchive(String),
    /// A compression or decompression algorithm failed.
    Compression(String),
    /// Encryption or decryption failed (for example, an invalid key).
    Crypto(String),
    /// Error-correcting encoding or decoding failed.
    Fec(String),
    /// The CRC32 of the unpacked data does not match the stored one.
    ChecksumMismatch { path: String },
    /// The selected algorithm has no implementation.
    NotImplemented(&'static str),
    /// The command line is malformed.
    CLIUsage(String),
}

/// Builds an owned message from a literal.
pub fn msg(text: &str) -> (r: String)
    ensures
        r@ == text@,
{
    text.to_owned()
}

/// The decimal digits of `n`, most significant first, without leading zeros.
pub open spec fn decimal(n: nat) -> Seq<char>
    decreases n,
{
    if n < 10 {
        seq![(n + 48) as char]
    } else {
        decimal(n / 10).push(((n % 10) + 48) as char)
    }
}

/// Formats `prefix` followed by the decimal value of `value`. Wraps
/// `format!`, which writes a string argument as it is and an unsigned
/// integer in decimal digits.
#[verifier::external_body]
pub(crate) fn msg_with_number(prefix: &str, value: u64) -> (r: String)
    ensures
        r@ == prefix@ + decimal(value as nat),
{
    format!("{prefix}{value}")
}

/// Builds `prefix`, the text `detail` and `suffix`, one after the other.
pub(crate) fn msg_with_text(prefix: &str, detail: &str, suffix: &str) -> (r: String)
    ensures
        r@ == prefix@ + detail@ + suffix@,
{
    let mut r = prefix.to_owned();
    r.append(detail);
    r.append(suffix);
    r
}

} // verus!
