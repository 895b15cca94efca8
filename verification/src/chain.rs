//! A chain of strings, each the digest of the one before it, and a random
//! string to start one from.

use crate::digest::digest_text;
use crate::digest::hex_digest;
use crate::digest::is_hex_char;
use crate::text::ascii_string;
use crate::text::ascii_text;
use rand::distributions::Alphanumeric;
use rand::Rng;
use vstd::prelude::*;
use vstd::utf8::*;

verus! {

/// Whether a byte is the ASCII code of a letter or a digit.
pub open spec fn is_alphanumeric_code(byte: u8) -> bool {
    (0x30 <= byte <= 0x39) || (0x41 <= byte <= 0x5a) || (0x61 <= byte <= 0x7a)
}

/// Whether a character is an ASCII letter or digit.
pub open spec fn is_alphanumeric(c: char) -> bool {
    ('0' <= c && c <= '9') || ('A' <= c && c <= 'Z') || ('a' <= c && c <= 'z')
}

/// `Rng::sample` of the `rand` crate with its `Alphanumeric` distribution, on
/// the thread's generator: the ASCII code of a letter or a digit, chosen at
/// random. The generator takes its seed from the operating system and cannot
/// be had where that fails.
#[verifier::external_body]
fn random_alphanumeric() -> (byte: u8)
    ensures
        is_alphanumeric_code(byte),
{
    rand::thread_rng().sample(Alphanumeric)
}

/// A string of `len` letters and digits, each chosen at random.
pub fn generate_random_string(len: usize) -> (text: String)
    ensures
        text@.len() == len,
        forall|i: int| 0 <= i < len ==> is_alphanumeric(#[trigger] text@[i]),
{
    let mut codes: Vec<u8> = Vec::new();
    while codes.len() < len
        invariant
            codes@.len() <= len,
            forall|i: int| 0 <= i < codes@.len() ==> is_alphanumeric_code(#[trigger] codes@[i]),
        decreases len - codes@.len(),
    {
        codes.push(random_alphanumeric());
    }
    proof {
        assert forall|i: int| 0 <= i < codes@.len() implies #[trigger] codes@[i] < 0x80 by {
            assert(is_alphanumeric_code(codes@[i]));
        }
        assert forall|i: int| 0 <= i < len implies is_alphanumeric(#[trigger] ascii_text(codes@)[i]) by {
            assert(is_alphanumeric_code(codes@[i]));
        }
    }
    ascii_string(codes)
}

/// The string that follows `current` in the chain kept under `secret`: the
/// SHA-256 digest of the UTF-8 bytes of `current`, then those of `secret`, in
/// lowercase hexadecimal.
pub fn evolve_string(current: &str, secret: &str) -> (next: String)
    ensures
        next@ == digest_text(encode_utf8(current@) + encode_utf8(secret@)),
        next@.len() == 64,
        forall|i: int| 0 <= i < 64 ==> is_hex_char(#[trigger] next@[i]),
{
    let mut message: Vec<u8> = Vec::new();
    message.extend_from_slice(current.as_bytes());
    let ghost first = message@;
    message.extend_from_slice(secret.as_bytes());
    assert(first =~= encode_utf8(current@));
    assert(message@ =~= first + encode_utf8(secret@));
    hex_digest(message.as_slice())
}

} // verus!
