//! The command line: commands, options and keys, parsed from the raw bytes
//! of the arguments.
use vstd::prelude::*;
use vstd::string::StringSliceAdditionalSpecFns;
use vstd::utf8::*;
use crate::error::{AppError, msg, msg_with_text};
use crate::header::string_from_utf8;
use crate::ids::{CipherId, CompressionId, FecId};
use crate::pipeline_settings::PipelineSettings;

verus! {

/// The largest key accepted, in bytes.
pub const MAX_KEY_SIZE: usize = 1048576;

/// The bytes `a` are the text `w`.
pub open spec fn is_word(a: Seq<u8>, w: &str) -> bool {
    a == w.spec_bytes()
}

fn word_is(a: &[u8], w: &str) -> (r: bool)
    ensures
        r == is_word(a@, w),
{
    let b = w.as_bytes();
    if a.len() != b.len() {
        return false;
    }
    let mut i: usize = 0;
    while i < a.len()
        invariant
            a@.len() == b@.len(),
            b@ == w.spec_bytes(),
            i <= a@.len(),
            forall|j: int| 0 <= j < i ==> a@[j] == b@[j],
        decreases a@.len() - i,
    {
        if a[i] != b[i] {
            return false;
        }
        i += 1;
    }
    assert(a@ =~= b@);
    true
}

fn utf8_ok(a: &[u8]) -> (r: bool)
    ensures
        r == valid_utf8(a@),
{
    string_from_utf8(vstd::slice::slice_to_vec(a)).is_some()
}

/// The text of `a` for a message (empty when it is not UTF-8).
fn text_of(a: &[u8]) -> (r: String)
    ensures
        valid_utf8(a@) ==> encode_utf8(r@) == a@,
        !valid_utf8(a@) ==> r@ == Seq::<char>::empty(),
{
    match string_from_utf8(vstd::slice::slice_to_vec(a)) {
        Some(s) => s,
        None => String::new(),
    }
}

/// ASCII letters of `s` in lower case, other bytes as they are.
pub open spec fn ascii_lower(s: Seq<u8>) -> Seq<u8> {
    Seq::new(s.len(), |i: int| if 65 <= s[i] <= 90 { (s[i] + 32) as u8 } else { s[i] })
}

fn ascii_lowercase(s: &[u8]) -> (r: Vec<u8>)
    ensures
        r@ == ascii_lower(s@),
{
    let mut out: Vec<u8> = Vec::new();
    let mut i: usize = 0;
    while i < s.len()
        invariant
            i <= s@.len(),
            out@ == ascii_lower(s@).take(i as int),
        decreases s@.len() - i,
    {
        let c = s[i];
        if 65 <= c && c <= 90 {
            out.push(c + 32);
        } else {
            out.push(c);
        }
        proof {
            assert(out@ =~= ascii_lower(s@).take(i + 1));
        }
        i += 1;
    }
    proof {
        assert(out@ =~= ascii_lower(s@));
    }
    out
}

fn usage_error(message: String) -> (r: AppError)
    ensures
        r == AppError::CLIUsage(message),
{
    AppError::CLIUsage(message)
}

/// A compression name, case-insensitively.
pub open spec fn compression_named(v: Seq<u8>) -> Option<CompressionId> {
    let n = ascii_lower(v);
    if !valid_utf8(v) {
        None
    } else if is_word(n, "none") || is_word(n, "store") {
        Some(CompressionId::NoCompression)
    } else if is_word(n, "rle") {
        Some(CompressionId::RLE)
    } else if is_word(n, "huffman") || is_word(n, "huff") {
        Some(CompressionId::Huffman)
    } else if is_word(n, "lzss") {
        Some(CompressionId::LZSS)
    } else if is_word(n, "deflate") {
        Some(CompressionId::Deflate)
    } else {
        None
    }
}

/// The UTF-8 bytes of an ASCII literal, byte for byte.
proof fn lemma_ascii_word(w: &str)
    requires
        is_ascii_chars(w@),
    ensures
        w.spec_bytes().len() == w@.len(),
        forall|i: int| 0 <= i < w@.len() ==> #[trigger] w.spec_bytes()[i] == w@[i] as u8,
{
    is_ascii_chars_encode_utf8(w@);
}

/// The names that `CompressionId::as_str` gives are the ones the command line
/// accepts: each one is parsed back to its identifier (and distinct
/// identifiers have distinct names).
pub proof fn law_compression_names(c: CompressionId, d: CompressionId)
    ensures
        compression_named(encode_utf8(c.name())) == Some(c),
        c != d ==> c.name() != d.name(),
{
    reveal_strlit("none");
    reveal_strlit("store");
    reveal_strlit("rle");
    reveal_strlit("huffman");
    reveal_strlit("huff");
    reveal_strlit("lzss");
    reveal_strlit("deflate");
    lemma_ascii_word("none");
    lemma_ascii_word("store");
    lemma_ascii_word("rle");
    lemma_ascii_word("huffman");
    lemma_ascii_word("huff");
    lemma_ascii_word("lzss");
    lemma_ascii_word("deflate");
    let chars = c.name();
    is_ascii_chars_encode_utf8(chars);
    encode_utf8_valid_utf8(chars);
    let b = encode_utf8(chars);
    assert(ascii_lower(b) =~= b);
    assert(b =~= match c {
        CompressionId::NoCompression => "none".spec_bytes(),
        CompressionId::RLE => "rle".spec_bytes(),
        CompressionId::Huffman => "huffman".spec_bytes(),
        CompressionId::LZSS => "lzss".spec_bytes(),
        CompressionId::Deflate => "deflate".spec_bytes(),
    });
    if c != CompressionId::NoCompression {
        assert(b != "none".spec_bytes() && b != "store".spec_bytes()) by {
            assert(b[0] != "none".spec_bytes()[0] || b.len() != "none".spec_bytes().len());
            assert(b[0] != "store".spec_bytes()[0] || b.len() != "store".spec_bytes().len());
        }
    }
    if c != CompressionId::RLE {
        assert(b != "rle".spec_bytes()) by {
            assert(b[0] != "rle".spec_bytes()[0] || b.len() != "rle".spec_bytes().len());
        }
    }
    if c != CompressionId::Huffman {
        assert(b != "huffman".spec_bytes() && b != "huff".spec_bytes()) by {
            assert(b[0] != "huffman".spec_bytes()[0] || b.len() != "huffman".spec_bytes().len());
            assert(b[0] != "huff".spec_bytes()[0] || b.len() != "huff".spec_bytes().len());
        }
    }
    if c != CompressionId::LZSS {
        assert(b != "lzss".spec_bytes()) by {
            assert(b[0] != "lzss".spec_bytes()[0] || b.len() != "lzss".spec_bytes().len());
        }
    }
    if c != d {
        assert(c.name()[0] != d.name()[0] || c.name().len() != d.name().len());
    }
}

/// A cipher name, case-insensitively.
pub open spec fn cipher_named(v: Seq<u8>) -> Option<CipherId> {
    let n = ascii_lower(v);
    if !valid_utf8(v) {
        None
    } else if is_word(n, "none") {
        Some(CipherId::NoCipher)
    } else if is_word(n, "xor") {
        Some(CipherId::Xor)
    } else {
        None
    }
}

/// An error-correction name, case-insensitively.
pub open spec fn fec_named(v: Seq<u8>) -> Option<FecId> {
    let n = ascii_lower(v);
    if !valid_utf8(v) {
        None
    } else if is_word(n, "none") {
        Some(FecId::NoFec)
    } else if is_word(n, "reed-solomon") || is_word(n, "reed_solomon") || is_word(n, "rs") {
        Some(FecId::ReedSolomon)
    } else {
        None
    }
}

pub fn parse_compression(value: &[u8]) -> (r: Result<CompressionId, AppError>)
    ensures
        r is Ok <==> compression_named(value@) is Some,
        r matches Ok(c) ==> compression_named(value@) == Some(c),
        r matches Err(e) ==> e is CLIUsage,
{
    if !utf8_ok(value) {
        return Err(usage_error(msg("значение --compression не является UTF-8 строкой")));
    }
    let n = ascii_lowercase(value);
    let s = n.as_slice();
    if word_is(s, "none") || word_is(s, "store") {
        Ok(CompressionId::NoCompression)
    } else if word_is(s, "rle") {
        Ok(CompressionId::RLE)
    } else if word_is(s, "huffman") || word_is(s, "huff") {
        Ok(CompressionId::Huffman)
    } else if word_is(s, "lzss") {
        Ok(CompressionId::LZSS)
    } else if word_is(s, "deflate") {
        Ok(CompressionId::Deflate)
    } else {
        Err(usage_error(msg_with_text("неизвестный алгоритм сжатия '", &text_of(s), "'")))
    }
}

pub fn parse_cipher(value: &[u8]) -> (r: Result<CipherId, AppError>)
    ensures
        r is Ok <==> cipher_named(value@) is Some,
        r matches Ok(c) ==> cipher_named(value@) == Some(c),
        r matches Err(e) ==> e is CLIUsage,
{
    if !utf8_ok(value) {
        return Err(usage_error(msg("значение --cipher не является UTF-8 строкой")));
    }
    let n = ascii_lowercase(value);
    let s = n.as_slice();
    if word_is(s, "none") {
        Ok(CipherId::NoCipher)
    } else if word_is(s, "xor") {
        Ok(CipherId::Xor)
    } else {
        Err(usage_error(msg_with_text("неизвестный шифр '", &text_of(s), "'")))
    }
}

pub fn parse_fec(value: &[u8]) -> (r: Result<FecId, AppError>)
    ensures
        r is Ok <==> fec_named(value@) is Some,
        r matches Ok(c) ==> fec_named(value@) == Some(c),
        r matches Err(e) ==> e is CLIUsage,
{
    if !utf8_ok(value) {
        return Err(usage_error(msg("значение --fec не является UTF-8 строкой")));
    }
    let n = ascii_lowercase(value);
    let s = n.as_slice();
    if word_is(s, "none") {
        Ok(FecId::NoFec)
    } else if word_is(s, "reed-solomon") || word_is(s, "reed_solomon") || word_is(s, "rs") {
        Ok(FecId::ReedSolomon)
    } else if word_is(s, "hamming7-4") || word_is(s, "hamming15-11") {
        Err(usage_error(msg("Hamming пока не подключён к pipeline; используйте none или reed-solomon")))
    } else {
        Err(usage_error(msg_with_text("неизвестный FEC '", &text_of(s), "'")))
    }
}

/// The value of a hex digit.
pub open spec fn hex_value(b: u8) -> Option<u8> {
    if 48 <= b <= 57 {
        Some((b - 48) as u8)
    } else if 97 <= b <= 102 {
        Some((b - 97 + 10) as u8)
    } else if 65 <= b <= 70 {
        Some((b - 65 + 10) as u8)
    } else {
        None
    }
}

pub fn hex_digit(byte: u8) -> (r: Result<u8, AppError>)
    ensures
        r is Ok <==> hex_value(byte) is Some,
        r matches Ok(v) ==> hex_value(byte) == Some(v),
        r matches Err(e) ==> e is CLIUsage,
{
    if 48 <= byte && byte <= 57 {
        Ok(byte - 48)
    } else if 97 <= byte && byte <= 102 {
        Ok(byte - 97 + 10)
    } else if 65 <= byte && byte <= 70 {
        Ok(byte - 65 + 10)
    } else {
        Err(usage_error(msg("недопустимый символ в --key-hex")))
    }
}

/// The separators allowed between hex digits.
pub open spec fn hex_separator(b: u8) -> bool {
    b == 58 || b == 45 || b == 32 || b == 9 || b == 13 || b == 10
}

/// The bytes of `s` that are not separators.
pub open spec fn hex_digits_of(s: Seq<u8>) -> Seq<u8>
    decreases s.len(),
{
    if s.len() == 0 {
        seq![]
    } else if hex_separator(s.last()) {
        hex_digits_of(s.drop_last())
    } else {
        hex_digits_of(s.drop_last()).push(s.last())
    }
}

/// The key that the hex digits stand for, two digits a byte.
pub open spec fn hex_bytes(d: Seq<u8>) -> Option<Seq<u8>>
    decreases d.len(),
{
    if d.len() < 2 {
        Some(seq![])
    } else {
        match (hex_value(d[0]), hex_value(d[1]), hex_bytes(d.skip(2))) {
            (Some(h), Some(l), Some(rest)) => Some(seq![(h * 16 + l) as u8] + rest),
            _ => None,
        }
    }
}

/// What `--key-hex` gives for the text `s`.
pub open spec fn hex_key_spec(s: Seq<u8>) -> Option<Seq<u8>> {
    let d = hex_digits_of(s);
    if d.len() == 0 || d.len() % 2 != 0 {
        None
    } else {
        hex_bytes(d)
    }
}

proof fn lemma_hex_bytes_take(d: Seq<u8>, k: int)
    requires
        0 <= k,
        2 * k + 2 <= d.len(),
        d.len() % 2 == 0,
        hex_bytes(d.take(2 * k)) is Some,
        hex_value(d[2 * k]) is Some,
        hex_value(d[2 * k + 1]) is Some,
    ensures
        hex_bytes(d.take(2 * k + 2)) == Some(
            hex_bytes(d.take(2 * k))->Some_0 + seq![(hex_value(d[2 * k])->Some_0 * 16 + hex_value(d[2 * k + 1])->Some_0) as u8],
        ),
    decreases k,
{
    if k == 0 {
        assert(d.take(2).skip(2) =~= Seq::<u8>::empty());
        assert(d.take(0) =~= Seq::<u8>::empty());
    } else {
        let d2 = d.skip(2);
        assert(d.take(2 * k).skip(2) =~= d2.take(2 * (k - 1)));
        assert(d.take(2 * k + 2).skip(2) =~= d2.take(2 * (k - 1) + 2));
        assert(d2[2 * (k - 1)] == d[2 * k]);
        assert(d2[2 * (k - 1) + 1] == d[2 * k + 1]);
        lemma_hex_bytes_take(d2, k - 1);
        assert(d.take(2 * k)[0] == d[0] && d.take(2 * k)[1] == d[1]);
        assert(d.take(2 * k + 2)[0] == d[0] && d.take(2 * k + 2)[1] == d[1]);
    }
}

proof fn lemma_hex_bytes_fail(d: Seq<u8>, k: int)
    requires
        0 <= k,
        2 * k + 2 <= d.len(),
        d.len() % 2 == 0,
        hex_value(d[2 * k]) is None || hex_value(d[2 * k + 1]) is None,
    ensures
        hex_bytes(d) is None,
    decreases k,
{
    if k > 0 {
        lemma_hex_bytes_fail(d.skip(2), k - 1);
    }
}

/// The lower-case hex digits, by value.
pub open spec fn lower_hex_digits() -> Seq<u8> {
    seq![
        '0' as u8, '1' as u8, '2' as u8, '3' as u8, '4' as u8, '5' as u8, '6' as u8, '7' as u8,
        '8' as u8, '9' as u8, 'a' as u8, 'b' as u8, 'c' as u8, 'd' as u8, 'e' as u8, 'f' as u8,
    ]
}

/// The upper-case hex digits, by value.
pub open spec fn upper_hex_digits() -> Seq<u8> {
    seq![
        '0' as u8, '1' as u8, '2' as u8, '3' as u8, '4' as u8, '5' as u8, '6' as u8, '7' as u8,
        '8' as u8, '9' as u8, 'A' as u8, 'B' as u8, 'C' as u8, 'D' as u8, 'E' as u8, 'F' as u8,
    ]
}

/// Every hex digit, in either case, stands for its value, and nothing else
/// is a hex digit.
pub proof fn law_hex_digits(v: int, b: u8)
    ensures
        0 <= v < 16 ==> hex_value(lower_hex_digits()[v]) == Some(v as u8),
        0 <= v < 16 ==> hex_value(upper_hex_digits()[v]) == Some(v as u8),
        hex_value(b) matches Some(x) ==> x < 16 && (lower_hex_digits()[x as int] == b || upper_hex_digits()[
            x as int
        ] == b),
{
}

/// The key written as lower-case hex digits, two a byte, high digit first.
pub open spec fn hex_text(k: Seq<u8>) -> Seq<u8>
    decreases k.len(),
{
    if k.len() == 0 {
        seq![]
    } else {
        seq![lower_hex_digits()[(k[0] / 16) as int], lower_hex_digits()[(k[0] % 16) as int]] + hex_text(k.skip(1))
    }
}

proof fn lemma_hex_text_plain(k: Seq<u8>)
    ensures
        hex_text(k).len() == 2 * k.len(),
        forall|i: int| 0 <= i < hex_text(k).len() ==> !hex_separator(#[trigger] hex_text(k)[i]),
    decreases k.len(),
{
    if k.len() > 0 {
        lemma_hex_text_plain(k.skip(1));
        let t = hex_text(k);
        assert forall|i: int| 0 <= i < t.len() implies !hex_separator(#[trigger] t[i]) by {
            if i >= 2 {
                assert(t[i] == hex_text(k.skip(1))[i - 2]);
            } else {
                law_hex_digits((k[0] / 16) as int, 0);
                law_hex_digits((k[0] % 16) as int, 0);
            }
        }
    }
}

proof fn lemma_digits_of_plain(s: Seq<u8>)
    requires
        forall|i: int| 0 <= i < s.len() ==> !hex_separator(#[trigger] s[i]),
    ensures
        hex_digits_of(s) == s,
    decreases s.len(),
{
    if s.len() > 0 {
        let f = s.drop_last();
        assert forall|i: int| 0 <= i < f.len() implies !hex_separator(#[trigger] f[i]) by {
            assert(f[i] == s[i]);
        }
        lemma_digits_of_plain(f);
        assert(!hex_separator(s[s.len() - 1]));
        assert(f.push(s.last()) =~= s);
    }
}

proof fn lemma_hex_bytes_text(k: Seq<u8>)
    ensures
        hex_bytes(hex_text(k)) == Some(k),
    decreases k.len(),
{
    lemma_hex_text_plain(k);
    if k.len() > 0 {
        let t = hex_text(k);
        let b = k[0];
        lemma_hex_bytes_text(k.skip(1));
        law_hex_digits((b / 16) as int, 0);
        law_hex_digits((b % 16) as int, 0);
        assert(t.skip(2) =~= hex_text(k.skip(1)));
        assert(t[0] == lower_hex_digits()[(b / 16) as int]);
        assert(t[1] == lower_hex_digits()[(b % 16) as int]);
        assert(((b / 16) as u8 * 16 + (b % 16) as u8) as u8 == b);
        assert(seq![b] + k.skip(1) =~= k);
    } else {
        assert(hex_text(k).len() == 0);
    }
}

/// `--key-hex` reads back any non-empty key written as hex digits.
pub proof fn law_hex_key_round_trip(k: Seq<u8>)
    requires
        k.len() > 0,
    ensures
        hex_key_spec(hex_text(k)) == Some(k),
{
    lemma_hex_text_plain(k);
    lemma_digits_of_plain(hex_text(k));
    lemma_hex_bytes_text(k);
}

/// Parses a hex key: digits in pairs, separators (`:`, `-`, blanks) ignored.
pub fn parse_hex_key(text: &[u8]) -> (r: Result<Vec<u8>, AppError>)
    ensures
        r is Ok <==> hex_key_spec(text@) is Some,
        r matches Ok(k) ==> hex_key_spec(text@) == Some(k@),
        r matches Err(e) ==> e is CLIUsage,
{
    let mut digits: Vec<u8> = Vec::new();
    let mut i: usize = 0;
    while i < text.len()
        invariant
            i <= text@.len(),
            digits@ == hex_digits_of(text@.take(i as int)),
        decreases text@.len() - i,
    {
        let b = text[i];
        proof {
            assert(text@.take(i + 1).drop_last() =~= text@.take(i as int));
        }
        if !(b == 58 || b == 45 || b == 32 || b == 9 || b == 13 || b == 10) {
            digits.push(b);
        }
        i += 1;
    }
    proof {
        assert(text@.take(text@.len() as int) =~= text@);
    }
    if digits.len() == 0 || digits.len() % 2 != 0 {
        return Err(usage_error(msg("--key-hex должен содержать ненулевое чётное число hex-цифр")));
    }
    let ghost d = digits@;
    let mut key: Vec<u8> = Vec::new();
    let mut k: usize = 0;
    proof {
        assert(d.take(0) =~= Seq::<u8>::empty());
    }
    while 2 * k < digits.len()
        invariant
            d == digits@,
            d == hex_digits_of(text@),
            d.len() > 0,
            d.len() % 2 == 0,
            d.len() <= usize::MAX,
            2 * k <= d.len(),
            hex_bytes(d.take(2 * k)) == Some(key@),
        decreases d.len() - 2 * k,
    {
        let high = match hex_digit(digits[2 * k]) {
            Ok(v) => v,
            Err(e) => {
                proof {
                    lemma_hex_bytes_fail(d, k as int);
                }
                return Err(e);
            },
        };
        let low = match hex_digit(digits[2 * k + 1]) {
            Ok(v) => v,
            Err(e) => {
                proof {
                    lemma_hex_bytes_fail(d, k as int);
                }
                return Err(e);
            },
        };
        proof {
            lemma_hex_bytes_take(d, k as int);
        }
        key.push(high * 16 + low);
        k += 1;
    }
    proof {
        assert(d.take(d.len() as int) =~= d);
    }
    Ok(key)
}

/// Where a key comes from, as the command line gave it.
#[derive(Debug, Clone)]
pub enum KeySource {
    /// `--key`: the text's bytes.
    Text(Vec<u8>),
    /// `--key-hex`: the bytes already decoded.
    Bytes(Vec<u8>),
    /// `--key-file`: the path of the file to read.
    File(Vec<u8>),
}

pub enum KeyModel {
    Text(Seq<u8>),
    Bytes(Seq<u8>),
    File(Seq<u8>),
}

impl KeySource {
    pub open spec fn model(&self) -> KeyModel {
        match self {
            KeySource::Text(t) => KeyModel::Text(t@),
            KeySource::Bytes(b) => KeyModel::Bytes(b@),
            KeySource::File(p) => KeyModel::File(p@),
        }
    }
}

pub open spec fn key_model(k: Option<KeySource>) -> Option<KeyModel> {
    match k {
        Some(s) => Some(s.model()),
        None => None,
    }
}

/// The arguments as byte strings.
pub open spec fn args_model(args: Seq<Vec<u8>>) -> Seq<Seq<u8>> {
    args.map_values(|a: Vec<u8>| a@)
}

/// Position of the first `=` from `i` on.
pub open spec fn eq_index_from(a: Seq<u8>, i: int) -> Option<int>
    decreases a.len() - i,
{
    if i < 0 || i >= a.len() {
        None
    } else if a[i] == 61u8 {
        Some(i)
    } else {
        eq_index_from(a, i + 1)
    }
}

/// An argument as an option: `Some(None)` when it is not an option,
/// `Some(Some((name, inline value)))` when it is, `None` for an option whose
/// name is not UTF-8.
pub open spec fn split_option_spec(a: Seq<u8>) -> Option<Option<(Seq<u8>, Option<Seq<u8>>)>> {
    if !valid_utf8(a) {
        if a.len() > 0 && a[0] == 45u8 {
            None
        } else {
            Some(None)
        }
    } else if a.len() == 0 || a[0] != 45u8 || a == seq![45u8] {
        Some(None)
    } else {
        match eq_index_from(a, 0) {
            Some(p) => Some(Some((a.take(p), Some(a.skip(p + 1))))),
            None => Some(Some((a, None))),
        }
    }
}

/// The value of the option at `i` and the index of the last argument it
/// took: the inline value (which must not be empty) or the next argument.
pub open spec fn option_value_spec(args: Seq<Seq<u8>>, i: int, inline: Option<Seq<u8>>) -> Option<(Seq<u8>, int)> {
    match inline {
        Some(v) => if v.len() == 0 {
            None
        } else {
            Some((v, i))
        },
        None => if i + 1 < args.len() {
            Some((args[i + 1], i + 1))
        } else {
            None
        },
    }
}

/// The state of scanning the arguments of `pack` or `unpack`.
pub struct Scan {
    pub positionals: Seq<Seq<u8>>,
    pub compression: Option<CompressionId>,
    pub cipher: Option<CipherId>,
    pub fec: Option<FecId>,
    pub key: Option<KeyModel>,
    pub options: bool,
}

pub enum ScanEnd {
    Running(Scan),
    Help,
    Version,
    Fail,
}

pub open spec fn scan_start() -> Scan {
    Scan { positionals: seq![], compression: None, cipher: None, fec: None, key: None, options: true }
}

pub open spec fn is_help(name: Seq<u8>) -> bool {
    is_word(name, "-h") || is_word(name, "--help")
}

pub open spec fn is_version(name: Seq<u8>) -> bool {
    is_word(name, "-V") || is_word(name, "--version")
}

pub open spec fn is_key_option(name: Seq<u8>) -> bool {
    is_word(name, "--key") || is_word(name, "--key-hex") || is_word(name, "--key-file")
}

/// The options `pack` accepts (`unpack` accepts the key options only).
pub open spec fn known_option(name: Seq<u8>, pack: bool) -> bool {
    is_key_option(name) || (pack && (is_word(name, "-c") || is_word(name, "--compression") || is_word(name, "--cipher")
        || is_word(name, "--fec")))
}

/// The scan after option `name` with value `v`; `None` for a bad or repeated value.
pub open spec fn apply_option(st: Scan, name: Seq<u8>, v: Seq<u8>) -> Option<Scan> {
    if is_word(name, "-c") || is_word(name, "--compression") {
        match compression_named(v) {
            Some(c) => if st.compression is Some { None } else { Some(Scan { compression: Some(c), ..st }) },
            None => None,
        }
    } else if is_word(name, "--cipher") {
        match cipher_named(v) {
            Some(c) => if st.cipher is Some { None } else { Some(Scan { cipher: Some(c), ..st }) },
            None => None,
        }
    } else if is_word(name, "--fec") {
        match fec_named(v) {
            Some(f) => if st.fec is Some { None } else { Some(Scan { fec: Some(f), ..st }) },
            None => None,
        }
    } else if is_word(name, "--key") {
        if st.key is Some { None } else { Some(Scan { key: Some(KeyModel::Text(v)), ..st }) }
    } else if is_word(name, "--key-hex") {
        if !valid_utf8(v) {
            None
        } else {
            match hex_key_spec(v) {
                Some(k) => if st.key is Some { None } else { Some(Scan { key: Some(KeyModel::Bytes(k)), ..st }) },
                None => None,
            }
        }
    } else {
        if st.key is Some { None } else { Some(Scan { key: Some(KeyModel::File(v)), ..st }) }
    }
}

/// Scanning the arguments from `i` on: `--` ends the options, an option
/// takes its value, anything else is a path.
pub open spec fn scan_args_spec(args: Seq<Seq<u8>>, i: int, st: Scan, pack: bool) -> ScanEnd
    decreases args.len() - i,
{
    if i < 0 || i >= args.len() {
        ScanEnd::Running(st)
    } else {
        let a = args[i];
        if st.options && is_word(a, "--") {
            scan_args_spec(args, i + 1, Scan { options: false, ..st }, pack)
        } else if st.options && split_option_spec(a) is None {
            ScanEnd::Fail
        } else if st.options && split_option_spec(a)->Some_0 is Some {
            let (name, inline) = split_option_spec(a)->Some_0->Some_0;
            if is_help(name) {
                ScanEnd::Help
            } else if is_version(name) {
                ScanEnd::Version
            } else if !known_option(name, pack) {
                ScanEnd::Fail
            } else {
                match option_value_spec(args, i, inline) {
                    None => ScanEnd::Fail,
                    Some((v, j)) => match apply_option(st, name, v) {
                        None => ScanEnd::Fail,
                        Some(st2) => if j >= i {
                            scan_args_spec(args, j + 1, st2, pack)
                        } else {
                            ScanEnd::Fail
                        },
                    },
                }
            }
        } else {
            scan_args_spec(args, i + 1, Scan { positionals: st.positionals.push(a), ..st }, pack)
        }
    }
}

/// A copy of `a`.
fn copy_bytes(a: &[u8]) -> (r: Vec<u8>)
    ensures
        r@ == a@,
{
    vstd::slice::slice_to_vec(a)
}

/// Splits an option argument into its name and inline value (`--name=value`).
pub fn split_option(arg: &[u8]) -> (r: Result<Option<(Vec<u8>, Option<Vec<u8>>)>, AppError>)
    ensures
        r is Err <==> split_option_spec(arg@) is None,
        r matches Err(e) ==> e is CLIUsage,
        r matches Ok(None) ==> split_option_spec(arg@) == Some(None::<(Seq<u8>, Option<Seq<u8>>)>),
        r matches Ok(Some((name, None))) ==> split_option_spec(arg@) == Some(Some((name@, None::<Seq<u8>>))),
        r matches Ok(Some((name, Some(v)))) ==> split_option_spec(arg@) == Some(Some((name@, Some(v@)))),
{
    if !utf8_ok(arg) {
        if arg.len() > 0 && arg[0] == 45 {
            return Err(usage_error(msg("имя опции не является валидной UTF-8 строкой")));
        }
        return Ok(None);
    }
    if arg.len() == 0 || arg[0] != 45 || arg.len() == 1 {
        proof {
            if arg@.len() == 1 && arg@[0] == 45u8 {
                assert(arg@ =~= seq![45u8]);
            }
        }
        return Ok(None);
    }
    proof {
        assert(arg@ != seq![45u8]);
    }
    let mut j: usize = 0;
    while j < arg.len()
        invariant
            j <= arg@.len(),
            valid_utf8(arg@),
            arg@.len() > 1,
            arg@[0] == 45u8,
            arg@ != seq![45u8],
            eq_index_from(arg@, 0) == eq_index_from(arg@, j as int),
        decreases arg@.len() - j,
    {
        if arg[j] == 61 {
            let name = copy_bytes(vstd::slice::slice_subrange(arg, 0, j));
            let value = copy_bytes(vstd::slice::slice_subrange(arg, j + 1, arg.len()));
            proof {
                assert(name@ =~= arg@.take(j as int));
                assert(value@ =~= arg@.skip(j + 1));
            }
            return Ok(Some((name, Some(value))));
        }
        j += 1;
    }
    Ok(Some((copy_bytes(arg), None)))
}

/// The value of option `name`: its inline value, or the next argument
/// (`index` then moves to it).
pub fn option_value(args: &[Vec<u8>], index: &mut usize, name: &[u8], inline: Option<Vec<u8>>) -> (r: Result<Vec<u8>, AppError>)
    requires
        *old(index) < args@.len(),
    ensures
        r is Ok <==> option_value_spec(args_model(args@), *old(index) as int, match inline {
            Some(v) => Some(v@),
            None => None,
        }) is Some,
        r matches Ok(v) ==> option_value_spec(args_model(args@), *old(index) as int, match inline {
            Some(v) => Some(v@),
            None => None,
        }) == Some((v@, *final(index) as int)),
        r matches Err(e) ==> e is CLIUsage,
{
    match inline {
        Some(value) => {
            if value.len() == 0 {
                return Err(usage_error(msg_with_text("опция ", &text_of(name), " получила пустое значение")));
            }
            Ok(value)
        },
        None => {
            if args.len() - *index > 1 {
                *index = *index + 1;
                Ok(copy_bytes(args[*index].as_slice()))
            } else {
                Err(usage_error(msg_with_text("после ", &text_of(name), " ожидается значение")))
            }
        },
    }
}

/// Stores `value` in an empty slot; a slot already set is an error.
pub fn set_once<T>(slot: &mut Option<T>, value: T, name: &str) -> (r: Result<(), AppError>)
    ensures
        r is Ok <==> (*old(slot) is None),
        r is Ok ==> *final(slot) == Some(value),
        r matches Err(e) ==> e is CLIUsage,
{
    if slot.is_some() {
        return Err(usage_error(msg_with_text("опция ", name, " указана несколько раз")));
    }
    *slot = Some(value);
    Ok(())
}

struct ScanState {
    positionals: Vec<Vec<u8>>,
    compression: Option<CompressionId>,
    cipher: Option<CipherId>,
    fec: Option<FecId>,
    key: Option<KeySource>,
    options: bool,
}

impl ScanState {
    spec fn model(&self) -> Scan {
        Scan {
            positionals: args_model(self.positionals@),
            compression: self.compression,
            cipher: self.cipher,
            fec: self.fec,
            key: key_model(self.key),
            options: self.options,
        }
    }
}

enum ScanOutcome {
    Running(ScanState),
    Help,
    Version,
}

proof fn lemma_args_model_push(v: Seq<Vec<u8>>, a: Vec<u8>)
    ensures
        args_model(v.push(a)) == args_model(v).push(a@),
{
    assert(args_model(v.push(a)) =~= args_model(v).push(a@));
}

/// Scans the arguments of `pack` (or, without `pack`, of `unpack`).
fn scan_args(args: &[Vec<u8>], pack: bool) -> (r: Result<ScanOutcome, AppError>)
    ensures
        r matches Err(e) ==> e is CLIUsage && scan_args_spec(args_model(args@), 0, scan_start(), pack) is Fail,
        r matches Ok(ScanOutcome::Help) ==> scan_args_spec(args_model(args@), 0, scan_start(), pack) is Help,
        r matches Ok(ScanOutcome::Version) ==> scan_args_spec(args_model(args@), 0, scan_start(), pack) is Version,
        r matches Ok(ScanOutcome::Running(st)) ==> scan_args_spec(args_model(args@), 0, scan_start(), pack)
            == ScanEnd::Running(st.model()),
{
    let ghost a = args_model(args@);
    let mut st = ScanState { positionals: Vec::new(), compression: None, cipher: None, fec: None, key: None, options: true };
    proof {
        assert(st.model().positionals =~= scan_start().positionals);
    }
    let mut index: usize = 0;
    while index < args.len()
        invariant
            a == args_model(args@),
            index <= args@.len(),
            scan_args_spec(a, 0, scan_start(), pack) == scan_args_spec(a, index as int, st.model(), pack),
        decreases args@.len() - index,
    {
        let arg = args[index].as_slice();
        proof {
            assert(a[index as int] == arg@);
        }
        if st.options && word_is(arg, "--") {
            st.options = false;
            index += 1;
        } else {
            let split = if st.options {
                match split_option(arg) {
                    Ok(v) => v,
                    Err(e) => {
                        return Err(e);
                    },
                }
            } else {
                None
            };
            match split {
                Some((name, inline)) => {
                    let n = name.as_slice();
                    if word_is(n, "-h") || word_is(n, "--help") {
                        return Ok(ScanOutcome::Help);
                    }
                    if word_is(n, "-V") || word_is(n, "--version") {
                        return Ok(ScanOutcome::Version);
                    }
                    let is_key = word_is(n, "--key") || word_is(n, "--key-hex") || word_is(n, "--key-file");
                    let is_pack_only = word_is(n, "-c") || word_is(n, "--compression") || word_is(n, "--cipher")
                        || word_is(n, "--fec");
                    if !(is_key || (pack && is_pack_only)) {
                        return Err(usage_error(msg_with_text("неизвестная опция: ", &text_of(n), "")));
                    }
                    let value = match option_value(args, &mut index, n, inline) {
                        Ok(v) => v,
                        Err(e) => {
                            return Err(e);
                        },
                    };
                    let v = value.as_slice();
                    let ghost before = st.model();
                    if word_is(n, "-c") || word_is(n, "--compression") {
                        let c = match parse_compression(v) {
                            Ok(c) => c,
                            Err(e) => {
                                return Err(e);
                            },
                        };
                        match set_once(&mut st.compression, c, "compression") {
                            Ok(()) => {},
                            Err(e) => {
                                return Err(e);
                            },
                        }
                    } else if word_is(n, "--cipher") {
                        let c = match parse_cipher(v) {
                            Ok(c) => c,
                            Err(e) => {
                                return Err(e);
                            },
                        };
                        match set_once(&mut st.cipher, c, "cipher") {
                            Ok(()) => {},
                            Err(e) => {
                                return Err(e);
                            },
                        }
                    } else if word_is(n, "--fec") {
                        let f = match parse_fec(v) {
                            Ok(f) => f,
                            Err(e) => {
                                return Err(e);
                            },
                        };
                        match set_once(&mut st.fec, f, "fec") {
                            Ok(()) => {},
                            Err(e) => {
                                return Err(e);
                            },
                        }
                    } else if word_is(n, "--key") {
                        match set_once(&mut st.key, KeySource::Text(copy_bytes(v)), "key") {
                            Ok(()) => {},
                            Err(e) => {
                                return Err(e);
                            },
                        }
                    } else if word_is(n, "--key-hex") {
                        if !utf8_ok(v) {
                            return Err(usage_error(msg("значение --key-hex не является UTF-8 строкой")));
                        }
                        let k = match parse_hex_key(v) {
                            Ok(k) => k,
                            Err(e) => {
                                return Err(e);
                            },
                        };
                        match set_once(&mut st.key, KeySource::Bytes(k), "key") {
                            Ok(()) => {},
                            Err(e) => {
                                return Err(e);
                            },
                        }
                    } else {
                        match set_once(&mut st.key, KeySource::File(copy_bytes(v)), "key") {
                            Ok(()) => {},
                            Err(e) => {
                                return Err(e);
                            },
                        }
                    }
                    proof {
                        assert(apply_option(before, name@, value@) == Some(st.model()));
                    }
                    index += 1;
                },
                None => {
                    let ghost ps = st.positionals@;
                    st.positionals.push(copy_bytes(arg));
                    proof {
                        lemma_args_model_push(ps, st.positionals@.last());
                    }
                    index += 1;
                },
            }
        }
    }
    Ok(ScanOutcome::Running(st))
}

/// A parsed command line whose key file (if any) is yet to be read.
#[derive(Debug, Clone)]
pub enum ParsedCommand {
    Pack { source_path: Vec<u8>, target_archive_path: Vec<u8>, settings: PipelineSettings, key: Option<KeySource> },
    Unpack { source_path: Vec<u8>, target_unpack_path: Vec<u8>, key: Option<KeySource> },
    ShowArchiveInnerStructure { archive_path: Vec<u8> },
    Help,
    Version,
}

pub enum ParsedModel {
    Pack(Seq<u8>, Seq<u8>, PipelineSettings, Option<KeyModel>),
    Unpack(Seq<u8>, Seq<u8>, Option<KeyModel>),
    List(Seq<u8>),
    Help,
    Version,
}

impl ParsedCommand {
    pub open spec fn model(&self) -> ParsedModel {
        match self {
            ParsedCommand::Pack { source_path, target_archive_path, settings, key } => ParsedModel::Pack(
                source_path@,
                target_archive_path@,
                *settings,
                key_model(*key),
            ),
            ParsedCommand::Unpack { source_path, target_unpack_path, key } => ParsedModel::Unpack(
                source_path@,
                target_unpack_path@,
                key_model(*key),
            ),
            ParsedCommand::ShowArchiveInnerStructure { archive_path } => ParsedModel::List(archive_path@),
            ParsedCommand::Help => ParsedModel::Help,
            ParsedCommand::Version => ParsedModel::Version,
        }
    }
}

/// The settings that `pack` uses: Deflate, no cipher and no error
/// correction unless the options say otherwise.
pub open spec fn pack_settings(st: Scan) -> PipelineSettings {
    PipelineSettings {
        compression: match st.compression {
            Some(c) => c,
            None => CompressionId::Deflate,
        },
        cipher: match st.cipher {
            Some(c) => c,
            None => CipherId::NoCipher,
        },
        fec: match st.fec {
            Some(f) => f,
            None => FecId::NoFec,
        },
    }
}

/// What the arguments of `pack` (or, without `pack`, of `unpack`) give.
pub open spec fn paths_command_spec(args: Seq<Seq<u8>>, pack: bool) -> Option<ParsedModel> {
    match scan_args_spec(args, 0, scan_start(), pack) {
        ScanEnd::Fail => None,
        ScanEnd::Help => Some(ParsedModel::Help),
        ScanEnd::Version => Some(ParsedModel::Version),
        ScanEnd::Running(st) => if st.positionals.len() != 2 {
            None
        } else if pack {
            Some(ParsedModel::Pack(st.positionals[0], st.positionals[1], pack_settings(st), st.key))
        } else {
            Some(ParsedModel::Unpack(st.positionals[0], st.positionals[1], st.key))
        },
    }
}

/// What the arguments of `list` give.
pub open spec fn list_spec(args: Seq<Seq<u8>>) -> Option<ParsedModel> {
    if args.len() == 1 && is_help(args[0]) {
        Some(ParsedModel::Help)
    } else if args.len() == 1 && is_version(args[0]) {
        Some(ParsedModel::Version)
    } else if args.len() == 1 {
        if (valid_utf8(args[0]) && args[0].len() > 0 && args[0][0] == 45u8) || args[0].len() == 0 {
            None
        } else {
            Some(ParsedModel::List(args[0]))
        }
    } else if args.len() == 2 && is_word(args[0], "--") {
        if args[1].len() == 0 {
            None
        } else {
            Some(ParsedModel::List(args[1]))
        }
    } else {
        None
    }
}

/// What the whole command line gives.
pub open spec fn parse_args_spec(args: Seq<Seq<u8>>) -> Option<ParsedModel> {
    if args.len() == 0 {
        Some(ParsedModel::Help)
    } else {
        let c = args[0];
        let rest = args.skip(1);
        if !valid_utf8(c) {
            None
        } else if is_word(c, "pack") || is_word(c, "p") {
            paths_command_spec(rest, true)
        } else if is_word(c, "unpack") || is_word(c, "u") {
            paths_command_spec(rest, false)
        } else if is_word(c, "list") || is_word(c, "ls") || is_word(c, "l") {
            list_spec(rest)
        } else if is_word(c, "help") || is_word(c, "-h") || is_word(c, "--help") {
            Some(ParsedModel::Help)
        } else if is_word(c, "version") || is_word(c, "-V") || is_word(c, "--version") {
            Some(ParsedModel::Version)
        } else {
            None
        }
    }
}

fn parse_paths_command(args: &[Vec<u8>], pack: bool) -> (r: Result<ParsedCommand, AppError>)
    ensures
        r is Ok <==> paths_command_spec(args_model(args@), pack) is Some,
        r matches Ok(p) ==> paths_command_spec(args_model(args@), pack) == Some(p.model()),
        r matches Err(e) ==> e is CLIUsage,
{
    let st = match scan_args(args, pack) {
        Ok(ScanOutcome::Running(st)) => st,
        Ok(ScanOutcome::Help) => {
            return Ok(ParsedCommand::Help);
        },
        Ok(ScanOutcome::Version) => {
            return Ok(ParsedCommand::Version);
        },
        Err(e) => {
            return Err(e);
        },
    };
    if st.positionals.len() != 2 {
        if pack {
            return Err(usage_error(msg("pack ожидает два пути: <SOURCE> <ARCHIVE>")));
        } else {
            return Err(usage_error(msg("unpack ожидает два пути: <ARCHIVE> <DESTINATION>")));
        }
    }
    let first = copy_bytes(st.positionals[0].as_slice());
    let second = copy_bytes(st.positionals[1].as_slice());
    if pack {
        let settings = PipelineSettings {
            compression: match st.compression {
                Some(c) => c,
                None => CompressionId::Deflate,
            },
            cipher: match st.cipher {
                Some(c) => c,
                None => CipherId::NoCipher,
            },
            fec: match st.fec {
                Some(f) => f,
                None => FecId::NoFec,
            },
        };
        Ok(ParsedCommand::Pack { source_path: first, target_archive_path: second, settings, key: st.key })
    } else {
        Ok(ParsedCommand::Unpack { source_path: first, target_unpack_path: second, key: st.key })
    }
}

/// Parses the arguments of `pack`.
pub fn parse_pack(args: &[Vec<u8>]) -> (r: Result<ParsedCommand, AppError>)
    ensures
        r is Ok <==> paths_command_spec(args_model(args@), true) is Some,
        r matches Ok(p) ==> paths_command_spec(args_model(args@), true) == Some(p.model()),
        r matches Err(e) ==> e is CLIUsage,
{
    parse_paths_command(args, true)
}

/// Parses the arguments of `unpack`.
pub fn parse_unpack(args: &[Vec<u8>]) -> (r: Result<ParsedCommand, AppError>)
    ensures
        r is Ok <==> paths_command_spec(args_model(args@), false) is Some,
        r matches Ok(p) ==> paths_command_spec(args_model(args@), false) == Some(p.model()),
        r matches Err(e) ==> e is CLIUsage,
{
    parse_paths_command(args, false)
}

/// Parses the arguments of `list`.
pub fn parse_list(args: &[Vec<u8>]) -> (r: Result<ParsedCommand, AppError>)
    ensures
        r is Ok <==> list_spec(args_model(args@)) is Some,
        r matches Ok(p) ==> list_spec(args_model(args@)) == Some(p.model()),
        r matches Err(e) ==> e is CLIUsage,
{
    let ghost a = args_model(args@);
    if args.len() == 1 {
        let only = args[0].as_slice();
        proof {
            assert(a[0] == only@);
        }
        if word_is(only, "-h") || word_is(only, "--help") {
            return Ok(ParsedCommand::Help);
        }
        if word_is(only, "-V") || word_is(only, "--version") {
            return Ok(ParsedCommand::Version);
        }
        if (utf8_ok(only) && only.len() > 0 && only[0] == 45) || only.len() == 0 {
            if only.len() == 0 {
                return Err(usage_error(msg("list ожидает один путь: <ARCHIVE>")));
            }
            return Err(usage_error(msg_with_text("неизвестная опция list: ", &text_of(only), "")));
        }
        return Ok(ParsedCommand::ShowArchiveInnerStructure { archive_path: copy_bytes(only) });
    }
    if args.len() == 2 && word_is(args[0].as_slice(), "--") {
        let path = args[1].as_slice();
        proof {
            assert(a[0] == args@[0]@);
            assert(a[1] == path@);
        }
        if path.len() == 0 {
            return Err(usage_error(msg("list ожидает один путь: <ARCHIVE>")));
        }
        return Ok(ParsedCommand::ShowArchiveInnerStructure { archive_path: copy_bytes(path) });
    }
    proof {
        if args@.len() == 2 {
            assert(a[0] == args@[0]@);
        }
    }
    Err(usage_error(msg("list ожидает один путь: <ARCHIVE>")))
}

/// Parses the command line (without the program name).
pub fn parse_args(args: &[Vec<u8>]) -> (r: Result<ParsedCommand, AppError>)
    ensures
        r is Ok <==> parse_args_spec(args_model(args@)) is Some,
        r matches Ok(p) ==> parse_args_spec(args_model(args@)) == Some(p.model()),
        r matches Err(e) ==> e is CLIUsage,
{
    let ghost a = args_model(args@);
    if args.len() == 0 {
        return Ok(ParsedCommand::Help);
    }
    let command = args[0].as_slice();
    let rest = vstd::slice::slice_subrange(args, 1, args.len());
    proof {
        assert(a[0] == command@);
        assert(args_model(rest@) =~= a.skip(1));
    }
    if !utf8_ok(command) {
        return Err(usage_error(msg("имя команды не является валидной UTF-8 строкой")));
    }
    if word_is(command, "pack") || word_is(command, "p") {
        parse_pack(rest)
    } else if word_is(command, "unpack") || word_is(command, "u") {
        parse_unpack(rest)
    } else if word_is(command, "list") || word_is(command, "ls") || word_is(command, "l") {
        parse_list(rest)
    } else if word_is(command, "help") || word_is(command, "-h") || word_is(command, "--help") {
        Ok(ParsedCommand::Help)
    } else if word_is(command, "version") || word_is(command, "-V") || word_is(command, "--version") {
        Ok(ParsedCommand::Version)
    } else {
        Err(usage_error(msg_with_text("неизвестная команда '", &text_of(command), "'")))
    }
}

/// The outcome of reading a key file: its bytes, or the reason it could not be read.
pub open spec fn file_model(f: Option<Result<Vec<u8>, String>>) -> Option<Result<Seq<u8>, ()>> {
    match f {
        Some(Ok(v)) => Some(Ok(v@)),
        Some(Err(_)) => Some(Err(())),
        None => None,
    }
}

/// The key bytes: none given is the empty key; `--key` must be UTF-8; a key
/// file must have been read; no key may exceed `MAX_KEY_SIZE` bytes.
pub open spec fn key_bytes(k: Option<KeyModel>, file: Option<Result<Seq<u8>, ()>>) -> Option<Seq<u8>> {
    let raw = match k {
        None => Some(Seq::<u8>::empty()),
        Some(KeyModel::Text(t)) => if valid_utf8(t) {
            Some(t)
        } else {
            None
        },
        Some(KeyModel::Bytes(b)) => Some(b),
        Some(KeyModel::File(_)) => match file {
            Some(Ok(b)) => Some(b),
            _ => None,
        },
    };
    match raw {
        Some(b) => if b.len() > MAX_KEY_SIZE {
            None
        } else {
            Some(b)
        },
        None => None,
    }
}

/// Loads the key: `file` is what reading the key file gave, when there is one.
pub fn load_key(source: Option<KeySource>, file: Option<Result<Vec<u8>, String>>) -> (r: Result<Vec<u8>, AppError>)
    ensures
        r is Ok <==> key_bytes(key_model(source), file_model(file)) is Some,
        r matches Ok(k) ==> key_bytes(key_model(source), file_model(file)) == Some(k@),
        r matches Err(e) ==> e is CLIUsage,
{
    let bytes = match source {
        None => Vec::new(),
        Some(KeySource::Text(t)) => {
            if !utf8_ok(t.as_slice()) {
                return Err(usage_error(msg("значение --key не является UTF-8 строкой")));
            }
            t
        },
        Some(KeySource::Bytes(b)) => b,
        Some(KeySource::File(path)) => match file {
            Some(Ok(b)) => b,
            Some(Err(reason)) => {
                return Err(usage_error(msg_with_text("не удалось прочитать файл ключа: ", reason.as_str(), "")));
            },
            None => {
                return Err(usage_error(msg_with_text("не удалось прочитать файл ключа '", &text_of(path.as_slice()), "'")));
            },
        },
    };
    if bytes.len() > MAX_KEY_SIZE {
        return Err(usage_error(msg("ключ слишком большой")));
    }
    proof {
        if source is None {
            assert(bytes@ =~= Seq::<u8>::empty());
        }
    }
    Ok(bytes)
}

/// A key is given exactly when the cipher needs one.
pub open spec fn pack_key_ok(cipher: CipherId, key: Seq<u8>) -> bool {
    !(cipher == CipherId::Xor && key.len() == 0) && !(cipher == CipherId::NoCipher && key.len() > 0)
}

pub fn validate_pack_key(cipher: CipherId, key: &[u8]) -> (r: Result<(), AppError>)
    ensures
        r is Ok <==> pack_key_ok(cipher, key@),
        r matches Err(e) ==> e is CLIUsage,
{
    match (cipher, key.len() == 0) {
        (CipherId::Xor, true) => Err(usage_error(msg("для --cipher xor требуется --key, --key-hex или --key-file"))),
        (CipherId::NoCipher, false) => Err(usage_error(msg("ключ указан, но шифрование выключено; добавьте --cipher xor"))),
        _ => Ok(()),
    }
}

/// A command ready to run.
#[derive(Debug, Clone)]
pub enum CLICommand {
    Pack { source_path: Vec<u8>, target_archive_path: Vec<u8>, settings: PipelineSettings, encode_key: Vec<u8> },
    Unpack { source_path: Vec<u8>, target_unpack_path: Vec<u8>, decode_key: Vec<u8> },
    ShowArchiveInnerStructure { archive_path: Vec<u8> },
    Help,
    Version,
}

pub enum CommandModel {
    Pack(Seq<u8>, Seq<u8>, PipelineSettings, Seq<u8>),
    Unpack(Seq<u8>, Seq<u8>, Seq<u8>),
    List(Seq<u8>),
    Help,
    Version,
}

impl CLICommand {
    pub open spec fn model(&self) -> CommandModel {
        match self {
            CLICommand::Pack { source_path, target_archive_path, settings, encode_key } => CommandModel::Pack(
                source_path@,
                target_archive_path@,
                *settings,
                encode_key@,
            ),
            CLICommand::Unpack { source_path, target_unpack_path, decode_key } => CommandModel::Unpack(
                source_path@,
                target_unpack_path@,
                decode_key@,
            ),
            CLICommand::ShowArchiveInnerStructure { archive_path } => CommandModel::List(archive_path@),
            CLICommand::Help => CommandModel::Help,
            CLICommand::Version => CommandModel::Version,
        }
    }
}

/// The command once its key is loaded (and, for `pack`, checked against the cipher).
pub open spec fn finish_spec(p: ParsedModel, file: Option<Result<Seq<u8>, ()>>) -> Option<CommandModel> {
    match p {
        ParsedModel::Pack(s, t, settings, k) => match key_bytes(k, file) {
            Some(kb) => if pack_key_ok(settings.cipher, kb) {
                Some(CommandModel::Pack(s, t, settings, kb))
            } else {
                None
            },
            None => None,
        },
        ParsedModel::Unpack(s, t, k) => match key_bytes(k, file) {
            Some(kb) => Some(CommandModel::Unpack(s, t, kb)),
            None => None,
        },
        ParsedModel::List(a) => Some(CommandModel::List(a)),
        ParsedModel::Help => Some(CommandModel::Help),
        ParsedModel::Version => Some(CommandModel::Version),
    }
}

/// Completes a parsed command with its key; `key_file` is what reading the
/// key file gave, for a command that names one.
pub fn finish_command(parsed: ParsedCommand, key_file: Option<Result<Vec<u8>, String>>) -> (r: Result<CLICommand, AppError>)
    ensures
        r is Ok <==> finish_spec(parsed.model(), file_model(key_file)) is Some,
        r matches Ok(c) ==> finish_spec(parsed.model(), file_model(key_file)) == Some(c.model()),
        r matches Err(e) ==> e is CLIUsage,
{
    match parsed {
        ParsedCommand::Pack { source_path, target_archive_path, settings, key } => {
            let encode_key = match load_key(key, key_file) {
                Ok(k) => k,
                Err(e) => {
                    return Err(e);
                },
            };
            match validate_pack_key(settings.cipher, encode_key.as_slice()) {
                Ok(()) => {},
                Err(e) => {
                    return Err(e);
                },
            }
            Ok(CLICommand::Pack { source_path, target_archive_path, settings, encode_key })
        },
        ParsedCommand::Unpack { source_path, target_unpack_path, key } => {
            let decode_key = match load_key(key, key_file) {
                Ok(k) => k,
                Err(e) => {
                    return Err(e);
                },
            };
            Ok(CLICommand::Unpack { source_path, target_unpack_path, decode_key })
        },
        ParsedCommand::ShowArchiveInnerStructure { archive_path } => Ok(CLICommand::ShowArchiveInnerStructure { archive_path }),
        ParsedCommand::Help => Ok(CLICommand::Help),
        ParsedCommand::Version => Ok(CLICommand::Version),
    }
}

} // verus!