//! Trusted boundary to the outside crates and to the few std text functions
//! that have no vstd specification.  Every function here is an
//! `external_body` wrapper whose contract states what the wrapped call
//! returns; nothing else in the crate is taken on trust.

use vstd::prelude::*;

use base64::Engine;
use std::io::Read;

verus! {

// ---------------------------------------------------------------------------
// std text functions
// ---------------------------------------------------------------------------

/// Relies on str::chars: the characters of the string, in order.  The
/// character count is bounded by the byte length, which std documents to be
/// at most isize::MAX for any slice.
#[verifier::external_body]
pub(crate) fn str_chars(s: &str) -> (r: Vec<char>)
    ensures
        r@ == s@,
        r@.len() <= usize::MAX / 2,
{
    s.chars().collect()
}

/// Relies on String::from_iter over chars: the string holding exactly the
/// given characters, in order.
#[verifier::external_body]
pub(crate) fn chars_string(v: &Vec<char>) -> (r: String)
    ensures
        r@ == v@,
{
    v.iter().collect()
}

/// Unicode lowercasing of a character sequence; the result depends on the
/// characters alone.
pub uninterp spec fn lower_of(s: Seq<char>) -> Seq<char>;

/// Relies on str::to_lowercase: the lowercase mapping of the string.
#[verifier::external_body]
pub(crate) fn lowercase(s: &str) -> (r: String)
    ensures
        r@ == lower_of(s@),
        s@.len() == 0 ==> r@.len() == 0,
{
    s.to_lowercase()
}

/// Whether a character has the Unicode White_Space property.
pub uninterp spec fn is_ws(c: char) -> bool;

/// Relies on char::is_whitespace: the Unicode White_Space property.
#[verifier::external_body]
pub(crate) fn char_is_whitespace(c: char) -> (r: bool)
    ensures
        r == is_ws(c),
{
    c.is_whitespace()
}

// ---------------------------------------------------------------------------
// UTF-8 (std)
// ---------------------------------------------------------------------------

/// The UTF-8 reading of a byte sequence: its characters when the bytes are
/// valid UTF-8, and nothing otherwise.
pub uninterp spec fn utf8_of(bytes: Seq<u8>) -> Option<Seq<char>>;

/// Relies on String::from_utf8: decodes valid UTF-8, refuses anything else.
#[verifier::external_body]
pub(crate) fn utf8_decode(bytes: &[u8]) -> (r: Option<String>)
    ensures
        match r {
            Some(s) => utf8_of(bytes@) == Some(s@),
            None => utf8_of(bytes@) is None,
        },
{
    String::from_utf8(bytes.to_vec()).ok()
}

/// The lossy UTF-8 reading of a byte sequence: invalid sequences become
/// replacement characters.
pub uninterp spec fn utf8_lossy_of(bytes: Seq<u8>) -> Seq<char>;

/// Relies on String::from_utf8_lossy: decodes UTF-8, replacing malformed
/// sequences with U+FFFD.
#[verifier::external_body]
pub(crate) fn utf8_decode_lossy(bytes: &[u8]) -> (r: String)
    ensures
        r@ == utf8_lossy_of(bytes@),
{
    String::from_utf8_lossy(bytes).to_string()
}

// ---------------------------------------------------------------------------
// encoding_rs
// ---------------------------------------------------------------------------

/// The UTF-16LE reading of a byte sequence (with BOM sniffing and
/// replacement characters), paired with whether malformed input was seen.
pub uninterp spec fn utf16le_of(bytes: Seq<u8>) -> (Seq<char>, bool);

/// Relies on encoding_rs::UTF_16LE.decode: decodes the whole buffer with BOM
/// sniffing; malformed sequences become replacement characters and set the
/// error flag.
#[verifier::external_body]
pub(crate) fn utf16le_decode(bytes: &[u8]) -> (r: (String, bool))
    ensures
        (r.0@, r.1) == utf16le_of(bytes@),
{
    let (cow, _, had_errors) = encoding_rs::UTF_16LE.decode(bytes);
    (cow.into_owned(), had_errors)
}

/// The GB18030 reading of a byte sequence, paired with whether malformed
/// input was seen.
pub uninterp spec fn gb18030_of(bytes: Seq<u8>) -> (Seq<char>, bool);

/// Relies on encoding_rs::GB18030.decode: decodes the whole buffer with BOM
/// sniffing; malformed sequences become replacement characters and set the
/// error flag.
#[verifier::external_body]
pub(crate) fn gb18030_decode(bytes: &[u8]) -> (r: (String, bool))
    ensures
        (r.0@, r.1) == gb18030_of(bytes@),
{
    let (cow, _, had_errors) = encoding_rs::GB18030.decode(bytes);
    (cow.into_owned(), had_errors)
}

/// The Big5 reading of a byte sequence, paired with whether malformed input
/// was seen.
pub uninterp spec fn big5_of(bytes: Seq<u8>) -> (Seq<char>, bool);

/// Relies on encoding_rs::BIG5.decode: decodes the whole buffer with BOM
/// sniffing; malformed sequences become replacement characters and set the
/// error flag.
#[verifier::external_body]
pub(crate) fn big5_decode(bytes: &[u8]) -> (r: (String, bool))
    ensures
        (r.0@, r.1) == big5_of(bytes@),
{
    let (cow, _, had_errors) = encoding_rs::BIG5.decode(bytes);
    (cow.into_owned(), had_errors)
}

// ---------------------------------------------------------------------------
// flate2
// ---------------------------------------------------------------------------

/// The zlib inflation of a byte sequence: its decompressed bytes when the
/// stream is well formed, and nothing otherwise.
pub uninterp spec fn zlib_of(bytes: Seq<u8>) -> Option<Seq<u8>>;

/// Relies on flate2::read::ZlibDecoder (read_to_end): inflates a complete
/// zlib stream, or fails on a malformed one.
#[verifier::external_body]
pub(crate) fn zlib_inflate(bytes: &[u8]) -> (r: Option<Vec<u8>>)
    ensures
        match r {
            Some(v) => zlib_of(bytes@) == Some(v@),
            None => zlib_of(bytes@) is None,
        },
{
    let mut decoder = flate2::read::ZlibDecoder::new(bytes);
    let mut out = Vec::new();
    match decoder.read_to_end(&mut out) {
        Ok(_) => Some(out),
        Err(_) => None,
    }
}

// ---------------------------------------------------------------------------
// minilzo-rs
// ---------------------------------------------------------------------------

/// The LZO1X decompression of a byte sequence to a requested output size,
/// as computed by the minilzo port.
pub uninterp spec fn minilzo_of(bytes: Seq<u8>, dst_len: nat) -> Option<Seq<u8>>;

/// Relies on minilzo_rs::LZO::init and LZO::decompress_safe: decompresses an
/// LZO1X stream into a buffer of exactly `dst_len` bytes, or fails.
#[verifier::external_body]
pub(crate) fn minilzo_decompress(bytes: &[u8], dst_len: usize) -> (r: Option<Vec<u8>>)
    ensures
        match r {
            Some(v) => minilzo_of(bytes@, dst_len as nat) == Some(v@) && v@.len() == dst_len,
            None => true,
        },
{
    match minilzo_rs::LZO::init() {
        Ok(lzo) => lzo.decompress_safe(bytes, dst_len).ok(),
        Err(_) => None,
    }
}

// ---------------------------------------------------------------------------
// base64
// ---------------------------------------------------------------------------

/// The standard (padded) base64 rendering of a byte sequence.
pub uninterp spec fn base64_of(bytes: Seq<u8>) -> Seq<char>;

/// Relies on base64::engine::general_purpose::STANDARD.encode: standard
/// alphabet with padding, four output characters for every three input
/// bytes.
#[verifier::external_body]
pub(crate) fn base64_encode(bytes: &[u8]) -> (r: String)
    requires
        bytes@.len() + 2 <= usize::MAX,
    ensures
        r@ == base64_of(bytes@),
        r@.len() == 4 * ((bytes@.len() + 2) / 3),
{
    base64::engine::general_purpose::STANDARD.encode(bytes)
}

} // verus!
