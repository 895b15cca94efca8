//! SHA-256 digests, and the text they are shown as.

use crate::hex::encode_hex;
use crate::hex::hex_lower;
use crate::hex::is_hex_digit;
use crate::hex::lemma_hex_lower_digits;
use crate::text::ascii_string;
use crate::text::ascii_text;
use sha2::Digest;
use sha2::Sha256;
use vstd::prelude::*;

verus! {

/// The SHA-256 digest of a message.
pub uninterp spec fn sha256(message: Seq<u8>) -> Seq<u8>;

/// `Sha256::digest` of the `sha2` crate, which hashes the whole message at
/// once: the result is the message's SHA-256 digest, thirty-two bytes long.
#[verifier::external_body]
fn sha256_digest(message: &[u8]) -> (digest: Vec<u8>)
    ensures
        digest@ == sha256(message@),
        digest@.len() == 32,
{
    Sha256::digest(message).to_vec()
}

/// The text that a message's digest is shown as: lowercase hexadecimal.
pub open spec fn digest_text(message: Seq<u8>) -> Seq<char> {
    ascii_text(hex_lower(sha256(message)))
}

/// Whether a character is one of `0`..`9`, `a`..`f`.
pub open spec fn is_hex_char(c: char) -> bool {
    ('0' <= c && c <= '9') || ('a' <= c && c <= 'f')
}

/// The digest of a message as sixty-four lowercase hexadecimal characters.
pub fn hex_digest(message: &[u8]) -> (text: String)
    ensures
        text@ == digest_text(message@),
        text@.len() == 64,
        forall|i: int| 0 <= i < 64 ==> is_hex_char(#[trigger] text@[i]),
{
    let digest: Vec<u8> = sha256_digest(message);
    let digits: Vec<u8> = encode_hex(digest.as_slice());
    proof {
        lemma_hex_lower_digits(digest@);
        assert forall|i: int| 0 <= i < digits@.len() implies #[trigger] digits@[i] < 0x80 by {
            assert(is_hex_digit(digits@[i]));
        }
        assert forall|i: int| 0 <= i < 64 implies is_hex_char(#[trigger] ascii_text(digits@)[i]) by {
            assert(is_hex_digit(digits@[i]));
        }
    }
    ascii_string(digits)
}

} // verus!
