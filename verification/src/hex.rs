//! Lowercase hexadecimal text of a byte sequence.

use vstd::prelude::*;

verus! {

/// The ASCII code of the lowercase hexadecimal digit for a value below sixteen.
pub open spec fn hex_digit(nibble: u8) -> u8 {
    if nibble < 10 {
        (0x30 + nibble) as u8
    } else {
        (0x57 + nibble) as u8
    }
}

/// The value that an ASCII hexadecimal digit stands for, in either case.
pub open spec fn hex_value(digit: u8) -> Option<u8> {
    if 0x30 <= digit <= 0x39 {
        Some((digit - 0x30) as u8)
    } else if 0x61 <= digit <= 0x66 {
        Some((digit - 0x57) as u8)
    } else if 0x41 <= digit <= 0x46 {
        Some((digit - 0x37) as u8)
    } else {
        None
    }
}

/// Two digits for each byte, the high half first.
pub open spec fn hex_lower(bytes: Seq<u8>) -> Seq<u8> {
    Seq::new(
        2 * bytes.len(),
        |i: int|
            if i % 2 == 0 {
                hex_digit(bytes[i / 2] / 16)
            } else {
                hex_digit(bytes[i / 2] % 16)
            },
    )
}

/// Whether a byte is one of `0`..`9`, `a`..`f`.
pub open spec fn is_hex_digit(digit: u8) -> bool {
    0x30 <= digit <= 0x39 || 0x61 <= digit <= 0x66
}

/// Hexadecimal text holds nothing but lowercase hexadecimal digits.
pub proof fn lemma_hex_lower_digits(bytes: Seq<u8>)
    ensures
        hex_lower(bytes).len() == 2 * bytes.len(),
        forall|i: int| 0 <= i < 2 * bytes.len() ==> is_hex_digit(#[trigger] hex_lower(bytes)[i]),
{
}

/// Reading a digit back gives the value it was written for.
pub proof fn lemma_hex_value_of_digit(nibble: u8)
    requires
        nibble < 16,
    ensures
        hex_value(hex_digit(nibble)) == Some(nibble),
{
}

/// The digit for a value below sixteen.
pub(crate) fn hex_digit_of(nibble: u8) -> (digit: u8)
    requires
        nibble < 16,
    ensures
        digit == hex_digit(nibble),
{
    if nibble < 10 {
        0x30 + nibble
    } else {
        0x57 + nibble
    }
}

/// The value of a digit, if it is one.
pub(crate) fn hex_value_of(digit: u8) -> (value: Option<u8>)
    ensures
        value == hex_value(digit),
{
    if 0x30 <= digit && digit <= 0x39 {
        Some(digit - 0x30)
    } else if 0x61 <= digit && digit <= 0x66 {
        Some(digit - 0x57)
    } else if 0x41 <= digit && digit <= 0x46 {
        Some(digit - 0x37)
    } else {
        None
    }
}

/// Writes the hexadecimal text of `bytes`, as ASCII.
pub fn encode_hex(bytes: &[u8]) -> (out: Vec<u8>)
    ensures
        out@ == hex_lower(bytes@),
{
    let mut out: Vec<u8> = Vec::new();
    let mut i: usize = 0;
    while i < bytes.len()
        invariant
            i <= bytes.len(),
            out@ == hex_lower(bytes@.take(i as int)),
        decreases bytes.len() - i,
    {
        let b: u8 = bytes[i];
        out.push(hex_digit_of(b / 16));
        out.push(hex_digit_of(b % 16));
        i += 1;
        assert(out@ =~= hex_lower(bytes@.take(i as int)));
    }
    assert(bytes@.take(i as int) =~= bytes@);
    out
}

} // verus!
