//! Bytes as text that passes through command lines, URLs and files: base64
//! with the standard alphabet and padding.

use base64::engine::general_purpose::STANDARD;
use base64::DecodeError;
use base64::Engine;
use vstd::prelude::*;

verus! {

/// The base64 text of some bytes.
pub uninterp spec fn base64_text(bytes: Seq<u8>) -> Seq<char>;

/// The bytes that a base64 text stands for; none where the text is not
/// base64.
pub uninterp spec fn base64_bytes(text: Seq<char>) -> Option<Seq<u8>>;

/// Whether a character belongs to the standard base64 alphabet or is the
/// padding character.
pub open spec fn is_base64_char(c: char) -> bool {
    ('A' <= c && c <= 'Z') || ('a' <= c && c <= 'z') || ('0' <= c && c <= '9') || c == '+' || c == '/'
        || c == '='
}

/// `base64::DecodeError`, which says why a text is not base64. Nothing is
/// read from a value.
#[verifier::external_type_specification]
#[verifier::external_body]
pub struct ExDecodeError(DecodeError);

/// `Engine::encode` of the `base64` crate on its `STANDARD` engine: the
/// result is the base64 text of the bytes, made of the standard alphabet and
/// `=`, four characters for every three bytes or part of three, and decoding
/// that text gives the bytes back. The call fails only on a length above
/// three quarters of `usize::MAX`, which no slice has.
#[verifier::external_body]
pub(crate) fn base64_encode(bytes: &[u8]) -> (text: String)
    ensures
        text@ == base64_text(bytes@),
        base64_bytes(text@) == Some(bytes@),
        text@.len() == 4 * ((bytes@.len() + 2) / 3),
        forall|i: int| 0 <= i < text@.len() ==> is_base64_char(#[trigger] text@[i]),
{
    STANDARD.encode(bytes)
}

/// `Engine::decode` of the `base64` crate on its `STANDARD` engine: the
/// bytes that the text stands for, or the crate's error where the text is
/// not base64.
#[verifier::external_body]
pub(crate) fn base64_decode(text: &str) -> (decoded: Result<Vec<u8>, DecodeError>)
    ensures
        match decoded {
            Ok(bytes) => base64_bytes(text@) == Some(bytes@),
            Err(_) => base64_bytes(text@) is None,
        },
{
    STANDARD.decode(text)
}

} // verus!
