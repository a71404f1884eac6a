//! The legacy single-byte encoding in which drawings are stored, as the
//! `encoding_rs` crate implements it (ISO-8859-10).
//!
//! What the encoding makes of given bytes or of a given text is not spelled
//! out here: each of the two directions has a name, and the functions of
//! this module say that they return what is so named.

use encoding_rs::ISO_8859_10;
use vstd::prelude::*;

verus! {

/// The longest input, in bytes, that is handed to the encoding. Both
/// directions size their buffers by a small multiple of the length of
/// their input; up to this length every such size stays below `isize::MAX`,
/// the most that a buffer can hold.
pub const MAX_CODEC_LEN: usize = usize::MAX / 64;

/// What decoding `bytes` gives: the text, and whether any byte sequence was
/// malformed and therefore replaced by U+FFFD.
pub uninterp spec fn legacy_decoded(bytes: Seq<u8>) -> (Seq<char>, bool);

/// What encoding `text` gives.
pub uninterp spec fn legacy_encoded(text: Seq<char>) -> Seq<u8>;

/// The number of bytes that `text` takes in UTF-8, which is how a string
/// measures its length.
pub open spec fn utf8_len(text: Seq<char>) -> nat {
    vstd::utf8::encode_utf8(text).len()
}

/// Calls `Encoding::decode` on `ISO_8859_10`.
///
/// The call looks for a byte order mark first: input that begins with the
/// mark of UTF-8 or of UTF-16 is decoded as such, without the mark, and any
/// other input as ISO-8859-10. Malformed sequences become U+FFFD. The text
/// and the flag depend on the bytes alone; the contract names them and
/// claims nothing else. The call panics where a buffer size, at most three
/// times the input's length and a few bytes more, overflows; the bound on
/// the length rules that out.
#[verifier::external_body]
fn decode_legacy(bytes: &[u8]) -> (decoded: (String, bool))
    requires
        bytes@.len() <= MAX_CODEC_LEN,
    ensures
        (decoded.0@, decoded.1) == legacy_decoded(bytes@),
{
    let (text, _, had_errors) = ISO_8859_10.decode(bytes);
    (text.into_owned(), had_errors)
}

/// Calls `Encoding::encode` on `ISO_8859_10`.
///
/// A character outside the encoding's repertoire is written as a decimal
/// numeric character reference (`&#` digits `;`). The bytes depend on the
/// text alone; the contract names them and claims nothing else. The call
/// panics where a buffer size overflows: it starts from the text's length
/// in UTF-8 and a few bytes more, rounded up to a power of two, and grows
/// the same way while references are written. The bound on the length
/// rules that out.
#[verifier::external_body]
fn encode_legacy(text: &str) -> (bytes: Vec<u8>)
    requires
        utf8_len(text@) <= MAX_CODEC_LEN,
    ensures
        bytes@ == legacy_encoded(text@),
{
    ISO_8859_10.encode(text).0.into_owned()
}

/// A decoded drawing.
pub struct Decoded {
    /// The text of the drawing.
    pub text: String,
    /// Whether any of the bytes was malformed and replaced by U+FFFD.
    pub had_errors: bool,
}

/// Decodes the bytes of a drawing.
///
/// Gives nothing for input longer than [`MAX_CODEC_LEN`], and for every
/// other input the text and the flag that the encoding makes of it.
pub fn decode_content(bytes: &[u8]) -> (decoded: Option<Decoded>)
    ensures
        decoded is Some <==> bytes@.len() <= MAX_CODEC_LEN,
        decoded matches Some(d) ==> (d.text@, d.had_errors) == legacy_decoded(bytes@),
{
    if bytes.len() <= MAX_CODEC_LEN {
        let (text, had_errors) = decode_legacy(bytes);
        Some(Decoded { text, had_errors })
    } else {
        None
    }
}

/// Encodes the text of a drawing.
///
/// Gives nothing for a text that takes more than [`MAX_CODEC_LEN`] bytes in
/// UTF-8, and for every other text the bytes that the encoding makes of it.
pub fn encode_content(text: &str) -> (bytes: Option<Vec<u8>>)
    ensures
        bytes is Some <==> utf8_len(text@) <= MAX_CODEC_LEN,
        bytes matches Some(b) ==> b@ == legacy_encoded(text@),
{
    if text.as_bytes().len() <= MAX_CODEC_LEN {
        Some(encode_legacy(text))
    } else {
        None
    }
}

} // verus!
