//! Trusted boundary to the base64 crate.
//!
//! Salts and digests are stored base64-encoded with the standard alphabet
//! and padding.  The encoding itself is done by the base64 crate; this
//! module gives its two calls contracts over two named results, and the
//! rest of the library reasons only through those names.

use vstd::prelude::*;
use base64::Engine as _;

verus! {

/// What the standard base64 encoding (with padding) of a byte sequence is.
/// A function of the bytes alone; stated only through the trusted calls below.
pub uninterp spec fn b64_of(data: Seq<u8>) -> Seq<char>;

/// What the strict standard base64 decoding of a text is: the bytes it
/// canonically encodes, or nothing.
pub uninterp spec fn b64_decode_of(s: Seq<char>) -> Option<Seq<u8>>;

/// Whether a character can appear in a standard base64 encoding:
/// the 26 upper-case letters, 26 lower-case letters, the 10 digits,
/// `+`, `/`, and the `=` padding character.
pub open spec fn is_b64_char(c: char) -> bool {
    ||| ('A' as u32) <= (c as u32) <= ('Z' as u32)
    ||| ('a' as u32) <= (c as u32) <= ('z' as u32)
    ||| ('0' as u32) <= (c as u32) <= ('9' as u32)
    ||| c == '+'
    ||| c == '/'
    ||| c == '='
}

/// Alphabet characters are none of the delimiters the formats use.
pub proof fn lemma_b64_char_not_delim(c: char)
    ensures
        is_b64_char(c) ==> c != '$' && c != ':' && c != '\n',
{
}

/// Relies on base64's `STANDARD` engine for encoding: RFC 4648's standard
/// alphabet with canonical `=` padding.  The result is a pure function of
/// the bytes, four characters for every three bytes (rounded up), drawn
/// from the alphabet above, and the same engine's strict decode inverts it.
/// The length bound keeps the crate's output-size computation from
/// overflowing, on which it would panic.
#[verifier::external_body]
pub fn base64_encode(data: &[u8]) -> (r: String)
    requires
        data@.len() <= 0x4000_0000_0000_0000,
    ensures
        r@ == b64_of(data@),
        r@.len() == 4 * ((data@.len() + 2) / 3),
        forall|i: int| 0 <= i < r@.len() ==> is_b64_char(#[trigger] r@[i]),
        b64_decode_of(r@) == Some(data@),
{
    base64::engine::general_purpose::STANDARD.encode(data)
}

/// Relies on base64's `STANDARD` engine for decoding.  Its configuration
/// requires canonical padding and rejects non-zero trailing bits, so it
/// accepts exactly the canonical encodings the engine itself produces;
/// hence a successful decode identifies the input as `b64_of` its result.
#[verifier::external_body]
pub fn base64_decode(s: &str) -> (r: Option<Vec<u8>>)
    ensures
        match r {
            Some(v) => b64_decode_of(s@) == Some(v@) && s@ == b64_of(v@),
            None => b64_decode_of(s@) is None,
        },
{
    match base64::engine::general_purpose::STANDARD.decode(s) {
        Ok(v) => Some(v),
        Err(_) => None,
    }
}

} // verus!
