//! The bytes that carry a generator's state.
//!
//! The state is written as one compact JSON object with four members, in
//! this order and with nothing between them:
//!
//! ```text
//! {"initial_string":"..","secret":"..","interval_seconds":60,"start_time":1700000000}
//! ```
//!
//! Strings are UTF-8 with `"`, `\` and the control characters escaped;
//! numbers are decimal. This module says what is written, and writes it;
//! `reader` reads every JSON text of such an object.

use crate::hex::hex_digit;
use crate::hex::hex_digit_of;
use vstd::prelude::*;
use vstd::utf8::*;

verus! {

/// What the bytes hold of a generator: its seed, its secret, its interval and
/// its start time in whole seconds since the Unix epoch.
pub struct Snapshot {
    pub initial_string: Seq<char>,
    pub secret: Seq<char>,
    pub interval_seconds: u64,
    pub start_secs: u64,
}

/// The code of `"`.
pub const QUOTE: u8 = 0x22;

/// The code of `\`.
pub const BACKSLASH: u8 = 0x5c;

/// The code of `{`.
pub const LEFT_BRACE: u8 = 0x7b;

/// The code of `}`.
pub const RIGHT_BRACE: u8 = 0x7d;

/// The code of `:`.
pub const COLON: u8 = 0x3a;

/// The code of `,`.
pub const COMMA: u8 = 0x2c;

/// The name of the member that holds the seed.
pub const INITIAL_STRING: &'static str = "initial_string";

/// The name of the member that holds the secret.
pub const SECRET: &'static str = "secret";

/// The name of the member that holds the interval.
pub const INTERVAL_SECONDS: &'static str = "interval_seconds";

/// The name of the member that holds the start time.
pub const START_TIME: &'static str = "start_time";

/// How one byte of a string is written between the quotes.
pub open spec fn escaped_byte(byte: u8) -> Seq<u8> {
    if byte == QUOTE {
        seq![BACKSLASH, QUOTE]
    } else if byte == BACKSLASH {
        seq![BACKSLASH, BACKSLASH]
    } else if byte == 0x08 {
        seq![BACKSLASH, 0x62u8]
    } else if byte == 0x09 {
        seq![BACKSLASH, 0x74u8]
    } else if byte == 0x0a {
        seq![BACKSLASH, 0x6eu8]
    } else if byte == 0x0c {
        seq![BACKSLASH, 0x66u8]
    } else if byte == 0x0d {
        seq![BACKSLASH, 0x72u8]
    } else if byte < 0x20 {
        seq![BACKSLASH, 0x75u8, 0x30u8, 0x30u8, hex_digit(byte / 16), hex_digit(byte % 16)]
    } else {
        seq![byte]
    }
}

/// How the bytes of a string are written between the quotes.
pub open spec fn escaped(bytes: Seq<u8>) -> Seq<u8>
    decreases bytes.len(),
{
    if bytes.len() == 0 {
        seq![]
    } else {
        escaped_byte(bytes[0]) + escaped(bytes.drop_first())
    }
}

/// A string as it stands in the object: quoted and escaped.
pub open spec fn quoted(text: Seq<char>) -> Seq<u8> {
    seq![QUOTE] + escaped(encode_utf8(text)) + seq![QUOTE]
}

/// A number as it stands in the object: decimal, without leading zeros.
pub open spec fn decimal(n: nat) -> Seq<u8>
    decreases n,
{
    if n < 10 {
        seq![(0x30 + n) as u8]
    } else {
        decimal(n / 10).push((0x30 + n % 10) as u8)
    }
}

/// A member as it stands in the object: its name, a colon, its value.
pub open spec fn member(name: Seq<char>, value: Seq<u8>) -> Seq<u8> {
    quoted(name) + seq![COLON] + value
}

/// The bytes that are written for a state.
pub open spec fn payload_bytes(state: Snapshot) -> Seq<u8> {
    seq![LEFT_BRACE] + member(INITIAL_STRING@, quoted(state.initial_string)) + seq![COMMA] + member(
        SECRET@,
        quoted(state.secret),
    ) + seq![COMMA] + member(INTERVAL_SECONDS@, decimal(state.interval_seconds as nat)) + seq![COMMA]
        + member(START_TIME@, decimal(state.start_secs as nat)) + seq![RIGHT_BRACE]
}

/// What is written for a state is at least the opening brace.
pub proof fn lemma_payload_bytes_not_empty(state: Snapshot)
    ensures
        payload_bytes(state).len() >= 1,
{
}

/// Escaping goes byte by byte, so it goes part by part.
pub proof fn lemma_escaped_concat(a: Seq<u8>, b: Seq<u8>)
    ensures
        escaped(a + b) == escaped(a) + escaped(b),
    decreases a.len(),
{
    if a.len() == 0 {
        assert(a + b =~= b);
        assert(escaped(a) + escaped(b) =~= escaped(b));
    } else {
        assert((a + b).drop_first() =~= a.drop_first() + b);
        lemma_escaped_concat(a.drop_first(), b);
        assert(escaped(a + b) =~= escaped(a) + escaped(b));
    }
}

/// Appends one byte of a string, escaped.
fn push_escaped_byte(out: &mut Vec<u8>, byte: u8)
    ensures
        final(out)@ == old(out)@ + escaped_byte(byte),
{
    if byte == QUOTE {
        out.push(BACKSLASH);
        out.push(QUOTE);
    } else if byte == BACKSLASH {
        out.push(BACKSLASH);
        out.push(BACKSLASH);
    } else if byte == 0x08 {
        out.push(BACKSLASH);
        out.push(0x62);
    } else if byte == 0x09 {
        out.push(BACKSLASH);
        out.push(0x74);
    } else if byte == 0x0a {
        out.push(BACKSLASH);
        out.push(0x6e);
    } else if byte == 0x0c {
        out.push(BACKSLASH);
        out.push(0x66);
    } else if byte == 0x0d {
        out.push(BACKSLASH);
        out.push(0x72);
    } else if byte < 0x20 {
        out.push(BACKSLASH);
        out.push(0x75);
        out.push(0x30);
        out.push(0x30);
        out.push(hex_digit_of(byte / 16));
        out.push(hex_digit_of(byte % 16));
    } else {
        out.push(byte);
    }
    assert(out@ =~= old(out)@ + escaped_byte(byte));
}

/// Appends a string, quoted and escaped.
pub fn push_quoted(out: &mut Vec<u8>, text: &str)
    ensures
        final(out)@ == old(out)@ + quoted(text@),
{
    let bytes: &[u8] = text.as_bytes();
    out.push(QUOTE);
    let mut i: usize = 0;
    while i < bytes.len()
        invariant
            i <= bytes.len(),
            out@ == old(out)@ + seq![QUOTE] + escaped(bytes@.take(i as int)),
        decreases bytes.len() - i,
    {
        let ghost before = out@;
        push_escaped_byte(out, bytes[i]);
        proof {
            lemma_escaped_concat(bytes@.take(i as int), seq![bytes@[i as int]]);
            assert(bytes@.take(i as int) + seq![bytes@[i as int]] =~= bytes@.take(i + 1));
            let one = seq![bytes@[i as int]];
            assert(one.drop_first() =~= Seq::<u8>::empty());
            assert(escaped(one.drop_first()) =~= Seq::<u8>::empty());
            assert(escaped(one) =~= escaped_byte(bytes@[i as int]));
            assert(out@ =~= old(out)@ + seq![QUOTE] + escaped(bytes@.take(i + 1)));
        }
        i += 1;
    }
    out.push(QUOTE);
    assert(bytes@.take(i as int) =~= bytes@);
    assert(out@ =~= old(out)@ + quoted(text@));
}

/// Appends a number in decimal.
pub fn push_decimal(out: &mut Vec<u8>, n: u64)
    ensures
        final(out)@ == old(out)@ + decimal(n as nat),
    decreases n,
{
    if n >= 10 {
        push_decimal(out, n / 10);
    }
    let digit: u8 = (n % 10) as u8;
    out.push(0x30 + digit);
    assert(out@ =~= old(out)@ + decimal(n as nat));
}

/// Appends a member whose value is a string.
fn push_text_member(out: &mut Vec<u8>, name: &str, value: &str)
    ensures
        final(out)@ == old(out)@ + member(name@, quoted(value@)),
{
    push_quoted(out, name);
    out.push(COLON);
    push_quoted(out, value);
    assert(out@ =~= old(out)@ + member(name@, quoted(value@)));
}

/// Appends a member whose value is a number.
fn push_number_member(out: &mut Vec<u8>, name: &str, value: u64)
    ensures
        final(out)@ == old(out)@ + member(name@, decimal(value as nat)),
{
    push_quoted(out, name);
    out.push(COLON);
    push_decimal(out, value);
    assert(out@ =~= old(out)@ + member(name@, decimal(value as nat)));
}

/// Appends one byte.
fn push_byte(out: &mut Vec<u8>, byte: u8)
    ensures
        final(out)@ == old(out)@ + seq![byte],
{
    out.push(byte);
    assert(out@ =~= old(out)@ + seq![byte]);
}

/// Writes the bytes that carry a state.
pub fn write_payload(initial_string: &str, secret: &str, interval_seconds: u64, start_secs: u64) -> (out:
    Vec<u8>)
    ensures
        out@ == payload_bytes(
            Snapshot {
                initial_string: initial_string@,
                secret: secret@,
                interval_seconds,
                start_secs,
            },
        ),
{
    let mut out: Vec<u8> = Vec::new();
    out.push(LEFT_BRACE);
    assert(out@ =~= seq![LEFT_BRACE]);
    push_text_member(&mut out, INITIAL_STRING, initial_string);
    push_byte(&mut out, COMMA);
    push_text_member(&mut out, SECRET, secret);
    push_byte(&mut out, COMMA);
    push_number_member(&mut out, INTERVAL_SECONDS, interval_seconds);
    push_byte(&mut out, COMMA);
    push_number_member(&mut out, START_TIME, start_secs);
    push_byte(&mut out, RIGHT_BRACE);
    out
}

} // verus!
