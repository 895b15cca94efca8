//! Reading the bytes that carry a generator's state.
//!
//! The bytes are read as JSON text: one object with exactly the four members
//! `initial_string`, `secret`, `interval_seconds` and `start_time`, in any
//! order, each once. Spaces, tabs and line ends may stand between the tokens.
//! The first two members are strings, with any of JSON's escapes; the last
//! two are whole numbers that fit sixty-four bits, without sign, fraction or
//! exponent.

use crate::hex::hex_value;
use crate::hex::hex_value_of;
use crate::hex::lemma_hex_value_of_digit;
use crate::payload::decimal;
use crate::payload::escaped;
use crate::payload::escaped_byte;
use crate::payload::member;
use crate::payload::payload_bytes;
use crate::payload::quoted;
use crate::payload::Snapshot;
use crate::payload::BACKSLASH;
use crate::payload::COLON;
use crate::payload::COMMA;
use crate::payload::INITIAL_STRING;
use crate::payload::INTERVAL_SECONDS;
use crate::payload::LEFT_BRACE;
use crate::payload::QUOTE;
use crate::payload::RIGHT_BRACE;
use crate::payload::SECRET;
use crate::payload::START_TIME;
use crate::text::string_from_utf8;
use vstd::prelude::*;
use vstd::utf8::*;

verus! {

/// Whether a byte is a space, a tab or a line end.
pub open spec fn is_space(byte: u8) -> bool {
    byte == 0x20 || byte == 0x09 || byte == 0x0a || byte == 0x0d
}

/// The first place at or after `pos` where no space stands.
pub open spec fn after_spaces(input: Seq<u8>, pos: int) -> int
    decreases input.len() - pos,
{
    if 0 <= pos < input.len() && is_space(input[pos]) {
        after_spaces(input, pos + 1)
    } else {
        pos
    }
}

/// Where the input goes on after `byte`, if `byte` is the first thing that
/// stands at or after `pos` but for spaces.
pub open spec fn byte_from(input: Seq<u8>, pos: int, byte: u8) -> Option<int> {
    let at = after_spaces(input, pos);
    if 0 <= at < input.len() && input[at] == byte {
        Some(at + 1)
    } else {
        None
    }
}

/// The number that the four hexadecimal digits at `pos` spell.
pub open spec fn code_unit_from(input: Seq<u8>, pos: int) -> Option<u32> {
    if 0 <= pos && pos + 4 <= input.len() {
        match (
            hex_value(input[pos]),
            hex_value(input[pos + 1]),
            hex_value(input[pos + 2]),
            hex_value(input[pos + 3]),
        ) {
            (Some(a), Some(b), Some(c), Some(d)) => Some((((a * 16 + b) * 16 + c) * 16 + d) as u32),
            _ => None,
        }
    } else {
        None
    }
}

/// The character that a `\u` escape at `pos` stands for, and where the escape
/// ends: `pos` is the place after the `u`. A character beyond the sixteen
/// bits of one escape is written as two escapes, a leading and a trailing
/// surrogate; a surrogate alone stands for nothing.
pub open spec fn escaped_scalar_from(input: Seq<u8>, pos: int) -> Option<(u32, int)> {
    match code_unit_from(input, pos) {
        None => None,
        Some(first) => if 0xD800 <= first <= 0xDBFF {
            if pos + 6 <= input.len() && input[pos + 4] == BACKSLASH && input[pos + 5] == 0x75 {
                match code_unit_from(input, pos + 6) {
                    None => None,
                    Some(second) => if 0xDC00 <= second <= 0xDFFF {
                        Some(
                            (
                                (0x10000 + (first - 0xD800) * 0x400 + (second - 0xDC00)) as u32,
                                pos + 10,
                            ),
                        )
                    } else {
                        None
                    },
                }
            } else {
                None
            }
        } else if 0xDC00 <= first <= 0xDFFF {
            None
        } else {
            Some((first, pos + 4))
        },
    }
}

/// The UTF-8 bytes that the plain byte or the escape at `pos` of a string
/// stands for, and where it ends.
pub open spec fn unit_from(input: Seq<u8>, pos: int) -> Option<(Seq<u8>, int)> {
    if !(0 <= pos < input.len()) {
        None
    } else if input[pos] == BACKSLASH {
        if pos + 2 > input.len() {
            None
        } else if input[pos + 1] == QUOTE {
            Some((seq![QUOTE], pos + 2))
        } else if input[pos + 1] == BACKSLASH {
            Some((seq![BACKSLASH], pos + 2))
        } else if input[pos + 1] == 0x2f {
            Some((seq![0x2fu8], pos + 2))
        } else if input[pos + 1] == 0x62 {
            Some((seq![0x08u8], pos + 2))
        } else if input[pos + 1] == 0x74 {
            Some((seq![0x09u8], pos + 2))
        } else if input[pos + 1] == 0x6e {
            Some((seq![0x0au8], pos + 2))
        } else if input[pos + 1] == 0x66 {
            Some((seq![0x0cu8], pos + 2))
        } else if input[pos + 1] == 0x72 {
            Some((seq![0x0du8], pos + 2))
        } else if input[pos + 1] == 0x75 {
            match escaped_scalar_from(input, pos + 2) {
                None => None,
                Some((scalar, end)) => Some((encode_scalar(scalar), end)),
            }
        } else {
            None
        }
    } else if input[pos] == QUOTE || input[pos] < 0x20 {
        None
    } else {
        Some((seq![input[pos]], pos + 1))
    }
}

/// The UTF-8 bytes of the string whose body starts at `pos`, and where the
/// string ends, past its closing quote.
pub open spec fn string_body_from(input: Seq<u8>, pos: int) -> Option<(Seq<u8>, int)>
    decreases input.len() - pos,
{
    if !(0 <= pos < input.len()) {
        None
    } else if input[pos] == QUOTE {
        Some((Seq::<u8>::empty(), pos + 1))
    } else {
        match unit_from(input, pos) {
            None => None,
            Some((unit, next)) => if pos < next <= input.len() {
                match string_body_from(input, next) {
                    None => None,
                    Some((rest, end)) => Some((unit + rest, end)),
                }
            } else {
                None
            },
        }
    }
}

/// The UTF-8 bytes of the quoted string at `pos`, and where it ends.
pub open spec fn quoted_from(input: Seq<u8>, pos: int) -> Option<(Seq<u8>, int)> {
    if 0 <= pos < input.len() && input[pos] == QUOTE {
        string_body_from(input, pos + 1)
    } else {
        None
    }
}

/// Whether a byte is one of `0`..`9`.
pub open spec fn is_digit(byte: u8) -> bool {
    0x30 <= byte <= 0x39
}

/// How many digits start the input.
pub open spec fn digit_count(input: Seq<u8>) -> nat
    decreases input.len(),
{
    if input.len() > 0 && is_digit(input[0]) {
        1 + digit_count(input.drop_first())
    } else {
        0
    }
}

/// The number that decimal digits spell.
pub open spec fn digits_value(digits: Seq<u8>) -> nat
    decreases digits.len(),
{
    if digits.len() == 0 {
        0
    } else {
        (digits_value(digits.drop_last()) * 10 + (digits.last() - 0x30)) as nat
    }
}

/// The number whose digits start the input, and how many they are: at least
/// one digit, no zero before another digit, and a value that fits
/// sixty-four bits.
pub open spec fn number_at(input: Seq<u8>) -> Option<(u64, int)> {
    let count = digit_count(input);
    let value = digits_value(input.take(count as int));
    if count == 0 || (count > 1 && input[0] == 0x30) || value > u64::MAX {
        None
    } else {
        Some((value as u64, count as int))
    }
}

/// The number at `pos`, and where it ends.
pub open spec fn number_from(input: Seq<u8>, pos: int) -> Option<(u64, int)> {
    match number_at(input.skip(pos)) {
        None => None,
        Some((value, taken)) => Some((value, pos + taken)),
    }
}

/// The value of a member: a string, as its UTF-8 bytes, or a number.
pub enum Value {
    Text(Seq<u8>),
    Number(u64),
}

/// The value at `pos`, and where it ends.
pub open spec fn value_from(input: Seq<u8>, pos: int) -> Option<(Value, int)> {
    if 0 <= pos < input.len() && input[pos] == QUOTE {
        match quoted_from(input, pos) {
            None => None,
            Some((text, end)) => Some((Value::Text(text), end)),
        }
    } else {
        match number_from(input, pos) {
            None => None,
            Some((number, end)) => Some((Value::Number(number), end)),
        }
    }
}

/// The member at or after `pos`: its name as UTF-8 bytes, its value, and
/// where it ends.
pub open spec fn member_from(input: Seq<u8>, pos: int) -> Option<(Seq<u8>, Value, int)> {
    match quoted_from(input, after_spaces(input, pos)) {
        None => None,
        Some((name, a)) => match byte_from(input, a, COLON) {
            None => None,
            Some(b) => match value_from(input, after_spaces(input, b)) {
                None => None,
                Some((value, end)) => Some((name, value, end)),
            },
        },
    }
}

/// The members that have been read so far, each in its place.
pub struct Slots {
    pub initial_string: Option<Seq<u8>>,
    pub secret: Option<Seq<u8>>,
    pub interval_seconds: Option<u64>,
    pub start_secs: Option<u64>,
}

/// No member read yet.
pub open spec fn no_slots() -> Slots {
    Slots { initial_string: None, secret: None, interval_seconds: None, start_secs: None }
}

/// The slots with one more member in its place: the name must be one of the
/// four, the value of the member's type, and the place still free.
pub open spec fn place(slots: Slots, name: Seq<u8>, value: Value) -> Option<Slots> {
    if name == encode_utf8(INITIAL_STRING@) {
        match value {
            Value::Text(text) => if slots.initial_string is None {
                Some(Slots { initial_string: Some(text), ..slots })
            } else {
                None
            },
            Value::Number(_) => None,
        }
    } else if name == encode_utf8(SECRET@) {
        match value {
            Value::Text(text) => if slots.secret is None {
                Some(Slots { secret: Some(text), ..slots })
            } else {
                None
            },
            Value::Number(_) => None,
        }
    } else if name == encode_utf8(INTERVAL_SECONDS@) {
        match value {
            Value::Number(number) => if slots.interval_seconds is None {
                Some(Slots { interval_seconds: Some(number), ..slots })
            } else {
                None
            },
            Value::Text(_) => None,
        }
    } else if name == encode_utf8(START_TIME@) {
        match value {
            Value::Number(number) => if slots.start_secs is None {
                Some(Slots { start_secs: Some(number), ..slots })
            } else {
                None
            },
            Value::Text(_) => None,
        }
    } else {
        None
    }
}

/// The slots after the member at or after `pos` has taken its place, and
/// where that member ends.
pub open spec fn placed_from(input: Seq<u8>, pos: int, slots: Slots) -> Option<(Slots, int)> {
    match member_from(input, pos) {
        None => None,
        Some((name, value, end)) => match place(slots, name, value) {
            None => None,
            Some(filled) => Some((filled, end)),
        },
    }
}

/// The four members of the object that the input is, each in its place.
pub open spec fn slots_of(input: Seq<u8>) -> Option<Slots> {
    match byte_from(input, 0, LEFT_BRACE) {
        None => None,
        Some(a) => match placed_from(input, a, no_slots()) {
            None => None,
            Some((first, b)) => match byte_from(input, b, COMMA) {
                None => None,
                Some(c) => match placed_from(input, c, first) {
                    None => None,
                    Some((second, d)) => match byte_from(input, d, COMMA) {
                        None => None,
                        Some(e) => match placed_from(input, e, second) {
                            None => None,
                            Some((third, f)) => match byte_from(input, f, COMMA) {
                                None => None,
                                Some(g) => match placed_from(input, g, third) {
                                    None => None,
                                    Some((fourth, h)) => match byte_from(input, h, RIGHT_BRACE) {
                                        None => None,
                                        Some(i) => if after_spaces(input, i) == input.len() {
                                            Some(fourth)
                                        } else {
                                            None
                                        },
                                    },
                                },
                            },
                        },
                    },
                },
            },
        },
    }
}

/// The state that four members make: the strings must be UTF-8.
pub open spec fn state_of(slots: Slots) -> Option<Snapshot> {
    match (slots.initial_string, slots.secret, slots.interval_seconds, slots.start_secs) {
        (Some(initial_string), Some(secret), Some(interval_seconds), Some(start_secs)) => if valid_utf8(
            initial_string,
        ) && valid_utf8(secret) {
            Some(
                Snapshot {
                    initial_string: decode_utf8(initial_string),
                    secret: decode_utf8(secret),
                    interval_seconds,
                    start_secs,
                },
            )
        } else {
            None
        },
        _ => None,
    }
}

/// The state that the JSON text `input` holds, if it is an object of exactly
/// the four members.
pub open spec fn state_read(input: Seq<u8>) -> Option<Snapshot> {
    match slots_of(input) {
        None => None,
        Some(slots) => state_of(slots),
    }
}

/// Whether the bytes are a JSON text that holds the state: an object of
/// exactly the four members, in any order, with spaces allowed between the
/// tokens, whose values are those of the state.
pub open spec fn spells(bytes: Seq<u8>, state: Snapshot) -> bool {
    state_read(bytes) == Some(state)
}

/// Whether the bytes carry some state.
pub open spec fn is_payload(bytes: Seq<u8>) -> bool {
    exists|state: Snapshot| spells(bytes, state)
}

/// The state that the bytes carry, where they carry one.
pub open spec fn payload_state(bytes: Seq<u8>) -> Snapshot {
    choose|state: Snapshot| spells(bytes, state)
}

/// Bytes spell at most one state.
pub proof fn lemma_spells_one_state(bytes: Seq<u8>, a: Snapshot, b: Snapshot)
    requires
        spells(bytes, a),
        spells(bytes, b),
    ensures
        a == b,
{
}

/// A string body that goes on after bytes that spelled `prefix`.
spec fn continued(prefix: Seq<u8>, tail: Option<(Seq<u8>, int)>) -> Option<(Seq<u8>, int)> {
    match tail {
        None => None,
        Some((rest, end)) => Some((prefix + rest, end)),
    }
}

/// Steps over spaces.
fn skip_spaces(bytes: &[u8], pos: usize) -> (at: usize)
    requires
        pos <= bytes.len(),
    ensures
        pos <= at <= bytes.len(),
        at == after_spaces(bytes@, pos as int),
{
    let mut at: usize = pos;
    while at < bytes.len() && (bytes[at] == 0x20 || bytes[at] == 0x09 || bytes[at] == 0x0a || bytes[at]
        == 0x0d)
        invariant
            pos <= at <= bytes.len(),
            after_spaces(bytes@, pos as int) == after_spaces(bytes@, at as int),
        decreases bytes.len() - at,
    {
        at += 1;
    }
    at
}

/// Steps over spaces and then over `byte`, if it stands there.
fn read_byte(bytes: &[u8], pos: usize, byte: u8) -> (next: Option<usize>)
    requires
        pos <= bytes.len(),
    ensures
        match next {
            Some(end) => pos < end <= bytes.len() && byte_from(bytes@, pos as int, byte) == Some(
                end as int,
            ),
            None => byte_from(bytes@, pos as int, byte) is None,
        },
{
    let at: usize = skip_spaces(bytes, pos);
    if at < bytes.len() && bytes[at] == byte {
        Some(at + 1)
    } else {
        None
    }
}

/// Reads four hexadecimal digits at `pos`.
fn read_code_unit(bytes: &[u8], pos: usize) -> (unit: Option<u32>)
    requires
        pos <= bytes.len(),
    ensures
        unit == code_unit_from(bytes@, pos as int),
        unit matches Some(value) ==> value <= 0xFFFF && pos + 4 <= bytes.len(),
{
    if bytes.len() - pos < 4 {
        return None;
    }
    match (
        hex_value_of(bytes[pos]),
        hex_value_of(bytes[pos + 1]),
        hex_value_of(bytes[pos + 2]),
        hex_value_of(bytes[pos + 3]),
    ) {
        (Some(a), Some(b), Some(c), Some(d)) => {
            let a: u32 = a as u32;
            let b: u32 = b as u32;
            let c: u32 = c as u32;
            let d: u32 = d as u32;
            Some(((a * 16 + b) * 16 + c) * 16 + d)
        },
        _ => None,
    }
}

/// Reads what follows the `u` of a `\u` escape, at `pos`.
fn read_escaped_scalar(bytes: &[u8], pos: usize) -> (read: Option<(u32, usize)>)
    requires
        pos <= bytes.len(),
    ensures
        match read {
            Some((scalar, end)) => pos < end <= bytes.len() && is_scalar(scalar)
                && escaped_scalar_from(bytes@, pos as int) == Some((scalar, end as int)),
            None => escaped_scalar_from(bytes@, pos as int) is None,
        },
{
    let first: u32 = match read_code_unit(bytes, pos) {
        Some(unit) => unit,
        None => {
            return None;
        },
    };
    if 0xD800 <= first && first <= 0xDBFF {
        if bytes.len() - pos < 6 || bytes[pos + 4] != BACKSLASH || bytes[pos + 5] != 0x75 {
            return None;
        }
        let second: u32 = match read_code_unit(bytes, pos + 6) {
            Some(unit) => unit,
            None => {
                return None;
            },
        };
        if 0xDC00 <= second && second <= 0xDFFF {
            Some((0x10000 + (first - 0xD800) * 0x400 + (second - 0xDC00), pos + 10))
        } else {
            None
        }
    } else if 0xDC00 <= first && first <= 0xDFFF {
        None
    } else {
        Some((first, pos + 4))
    }
}

/// Appends the UTF-8 bytes of a character.
fn push_scalar(out: &mut Vec<u8>, scalar: u32)
    requires
        is_scalar(scalar),
    ensures
        final(out)@ == old(out)@ + encode_scalar(scalar),
{
    if scalar <= 0x7F {
        out.push((scalar & 0x7F) as u8);
    } else if scalar <= 0x7FF {
        out.push(0xC0 | ((scalar >> 6) & 0x1F) as u8);
        out.push(0x80 | (scalar & 0x3F) as u8);
    } else if scalar <= 0xFFFF {
        out.push(0xE0 | ((scalar >> 12) & 0x0F) as u8);
        out.push(0x80 | ((scalar >> 6) & 0x3F) as u8);
        out.push(0x80 | (scalar & 0x3F) as u8);
    } else {
        out.push(0xF0 | ((scalar >> 18) & 0x7) as u8);
        out.push(0x80 | ((scalar >> 12) & 0x3F) as u8);
        out.push(0x80 | ((scalar >> 6) & 0x3F) as u8);
        out.push(0x80 | (scalar & 0x3F) as u8);
    }
    assert(out@ =~= old(out)@ + encode_scalar(scalar));
}

/// Reads one plain byte or escape of a string at `pos`, and appends the
/// bytes that it stands for.
fn read_unit(bytes: &[u8], pos: usize, out: &mut Vec<u8>) -> (next: Option<usize>)
    requires
        pos <= bytes.len(),
    ensures
        match unit_from(bytes@, pos as int) {
            Some((unit, end)) => next == Some(end as usize) && pos < end <= bytes.len() && final(out)@
                == old(out)@ + unit,
            None => next is None,
        },
{
    let left: usize = bytes.len() - pos;
    if left == 0 {
        return None;
    }
    let first: u8 = bytes[pos];
    if first == BACKSLASH {
        if left < 2 {
            return None;
        }
        let second: u8 = bytes[pos + 1];
        let plain: u8 = if second == QUOTE {
            QUOTE
        } else if second == BACKSLASH {
            BACKSLASH
        } else if second == 0x2f {
            0x2f
        } else if second == 0x62 {
            0x08
        } else if second == 0x74 {
            0x09
        } else if second == 0x6e {
            0x0a
        } else if second == 0x66 {
            0x0c
        } else if second == 0x72 {
            0x0d
        } else if second == 0x75 {
            match read_escaped_scalar(bytes, pos + 2) {
                Some((scalar, end)) => {
                    push_scalar(out, scalar);
                    return Some(end);
                },
                None => {
                    return None;
                },
            }
        } else {
            return None;
        };
        out.push(plain);
        assert(out@ =~= old(out)@ + seq![plain]);
        Some(pos + 2)
    } else if first == QUOTE || first < 0x20 {
        None
    } else {
        out.push(first);
        assert(out@ =~= old(out)@ + seq![first]);
        Some(pos + 1)
    }
}

/// Reads the quoted string at `pos`.
fn read_quoted(bytes: &[u8], pos: usize) -> (read: Option<(Vec<u8>, usize)>)
    requires
        pos <= bytes.len(),
    ensures
        match read {
            Some((text, end)) => pos < end <= bytes.len() && quoted_from(bytes@, pos as int) == Some(
                (text@, end as int),
            ),
            None => quoted_from(bytes@, pos as int) is None,
        },
{
    if pos >= bytes.len() || bytes[pos] != QUOTE {
        return None;
    }
    let mut text: Vec<u8> = Vec::new();
    let mut i: usize = pos + 1;
    assert(text@ + Seq::<u8>::empty() =~= Seq::<u8>::empty());
    proof {
        match string_body_from(bytes@, i as int) {
            None => {},
            Some((rest, end)) => {
                assert(text@ + rest =~= rest);
            },
        }
    }
    loop
        invariant
            pos < i <= bytes.len(),
            bytes@[pos as int] == QUOTE,
            string_body_from(bytes@, pos + 1) == continued(text@, string_body_from(bytes@, i as int)),
        decreases bytes.len() - i,
    {
        if i >= bytes.len() {
            return None;
        }
        if bytes[i] == QUOTE {
            assert(text@ + Seq::<u8>::empty() =~= text@);
            return Some((text, i + 1));
        }
        let ghost before = text@;
        match read_unit(bytes, i, &mut text) {
            None => {
                return None;
            },
            Some(end) => {
                proof {
                    let unit = unit_from(bytes@, i as int).unwrap().0;
                    match string_body_from(bytes@, end as int) {
                        None => {},
                        Some((rest, last)) => {
                            assert(before + (unit + rest) =~= (before + unit) + rest);
                        },
                    }
                }
                i = end;
            },
        }
    }
}

/// Where the first `count` bytes are digits and no digit follows them, they
/// are the digits that start the input.
proof fn lemma_digit_count(input: Seq<u8>, count: int)
    requires
        0 <= count <= input.len(),
        forall|j: int| 0 <= j < count ==> is_digit(#[trigger] input[j]),
        count == input.len() || !is_digit(input[count]),
    ensures
        digit_count(input) == count,
    decreases count,
{
    if count > 0 {
        let rest = input.drop_first();
        assert forall|j: int| 0 <= j < count - 1 implies is_digit(#[trigger] rest[j]) by {
            assert(rest[j] == input[j + 1]);
        }
        lemma_digit_count(rest, count - 1);
    }
}

/// Where the first `count` bytes are digits, at least as many digits start
/// the input, and all that start it are digits.
proof fn lemma_digit_count_at_least(input: Seq<u8>, count: int)
    requires
        0 <= count <= input.len(),
        forall|j: int| 0 <= j < count ==> is_digit(#[trigger] input[j]),
    ensures
        count <= digit_count(input) <= input.len(),
        forall|j: int| 0 <= j < digit_count(input) ==> is_digit(#[trigger] input[j]),
    decreases input.len(),
{
    if input.len() > 0 && is_digit(input[0]) {
        let rest = input.drop_first();
        let fewer = if count > 0 {
            count - 1
        } else {
            0
        };
        assert forall|j: int| 0 <= j < fewer implies is_digit(#[trigger] rest[j]) by {
            assert(rest[j] == input[j + 1]);
        }
        lemma_digit_count_at_least(rest, fewer);
        assert forall|j: int| 0 <= j < digit_count(input) implies is_digit(#[trigger] input[j]) by {
            if j > 0 {
                assert(input[j] == rest[j - 1]);
            }
        }
    }
}

/// More digits spell no smaller a number.
proof fn lemma_digits_value_grows(digits: Seq<u8>, count: int)
    requires
        0 <= count <= digits.len(),
        forall|j: int| 0 <= j < digits.len() ==> is_digit(#[trigger] digits[j]),
    ensures
        digits_value(digits.take(count)) <= digits_value(digits),
    decreases digits.len(),
{
    if count == digits.len() {
        assert(digits.take(count) =~= digits);
    } else {
        let shorter = digits.drop_last();
        assert(shorter.take(count) =~= digits.take(count));
        lemma_digits_value_grows(shorter, count);
        assert(is_digit(digits.last()));
    }
}

/// Reads the number at `pos`.
fn read_number(bytes: &[u8], pos: usize) -> (read: Option<(u64, usize)>)
    requires
        pos <= bytes.len(),
    ensures
        match read {
            Some((value, end)) => pos < end <= bytes.len() && number_from(bytes@, pos as int) == Some(
                (value, end as int),
            ),
            None => number_from(bytes@, pos as int) is None,
        },
{
    let ghost input = bytes@.skip(pos as int);
    let mut value: u64 = 0;
    let mut i: usize = pos;
    assert(input.take(0) =~= Seq::<u8>::empty());
    while i < bytes.len() && 0x30 <= bytes[i] && bytes[i] <= 0x39
        invariant
            pos <= i <= bytes.len(),
            input == bytes@.skip(pos as int),
            forall|j: int| 0 <= j < i - pos ==> is_digit(#[trigger] input[j]),
            value == digits_value(input.take(i - pos)),
        decreases bytes.len() - i,
    {
        let digit: u8 = bytes[i] - 0x30;
        proof {
            let longer = input.take(i - pos + 1);
            assert(longer.drop_last() =~= input.take(i - pos));
            assert(longer.last() == bytes@[i as int]);
            assert(digits_value(longer) == value * 10 + digit);
        }
        if value > (u64::MAX - digit as u64) / 10 {
            proof {
                assert forall|j: int| 0 <= j < i - pos + 1 implies is_digit(#[trigger] input[j]) by {}
                lemma_digit_count_at_least(input, i - pos + 1);
                let all = input.take(digit_count(input) as int);
                assert(all.take(i - pos + 1) =~= input.take(i - pos + 1));
                lemma_digits_value_grows(all, i - pos + 1);
            }
            return None;
        }
        value = value * 10 + digit as u64;
        i += 1;
    }
    proof {
        lemma_digit_count(input, i - pos);
    }
    if i == pos || (i - pos > 1 && bytes[pos] == 0x30) {
        None
    } else {
        Some((value, i))
    }
}

/// A value as it is read.
enum ReadValue {
    Text(Vec<u8>),
    Number(u64),
}

impl View for ReadValue {
    type V = Value;

    closed spec fn view(&self) -> Value {
        match self {
            ReadValue::Text(text) => Value::Text(text@),
            ReadValue::Number(number) => Value::Number(*number),
        }
    }
}

/// The members as they are read.
struct ReadSlots {
    initial_string: Option<Vec<u8>>,
    secret: Option<Vec<u8>>,
    interval_seconds: Option<u64>,
    start_secs: Option<u64>,
}

/// The bytes that were read into a place, if any were.
spec fn read_text(place: Option<Vec<u8>>) -> Option<Seq<u8>> {
    match place {
        Some(text) => Some(text@),
        None => None,
    }
}

impl View for ReadSlots {
    type V = Slots;

    closed spec fn view(&self) -> Slots {
        Slots {
            initial_string: read_text(self.initial_string),
            secret: read_text(self.secret),
            interval_seconds: self.interval_seconds,
            start_secs: self.start_secs,
        }
    }
}

/// Reads the value at `pos`.
fn read_value(bytes: &[u8], pos: usize) -> (read: Option<(ReadValue, usize)>)
    requires
        pos <= bytes.len(),
    ensures
        match read {
            Some((value, end)) => pos < end <= bytes.len() && value_from(bytes@, pos as int) == Some(
                (value@, end as int),
            ),
            None => value_from(bytes@, pos as int) is None,
        },
{
    if pos < bytes.len() && bytes[pos] == QUOTE {
        match read_quoted(bytes, pos) {
            Some((text, end)) => Some((ReadValue::Text(text), end)),
            None => None,
        }
    } else {
        match read_number(bytes, pos) {
            Some((number, end)) => Some((ReadValue::Number(number), end)),
            None => None,
        }
    }
}

/// Whether two byte strings are the same.
fn same_bytes(a: &[u8], b: &[u8]) -> (same: bool)
    ensures
        same == (a@ == b@),
{
    if a.len() != b.len() {
        return false;
    }
    let mut i: usize = 0;
    while i < a.len()
        invariant
            i <= a.len(),
            a.len() == b.len(),
            forall|j: int| 0 <= j < i ==> a@[j] == b@[j],
        decreases a.len() - i,
    {
        if a[i] != b[i] {
            return false;
        }
        i += 1;
    }
    assert(a@ =~= b@);
    true
}

/// Puts a member that was read into its place.
fn put(slots: ReadSlots, name: &[u8], value: ReadValue) -> (filled: Option<ReadSlots>)
    ensures
        match filled {
            Some(slots_after) => place(slots@, name@, value@) == Some(slots_after@),
            None => place(slots@, name@, value@) is None,
        },
{
    let mut slots = slots;
    if same_bytes(name, INITIAL_STRING.as_bytes()) {
        match value {
            ReadValue::Text(text) => {
                if slots.initial_string.is_some() {
                    return None;
                }
                slots.initial_string = Some(text);
                Some(slots)
            },
            ReadValue::Number(_) => None,
        }
    } else if same_bytes(name, SECRET.as_bytes()) {
        match value {
            ReadValue::Text(text) => {
                if slots.secret.is_some() {
                    return None;
                }
                slots.secret = Some(text);
                Some(slots)
            },
            ReadValue::Number(_) => None,
        }
    } else if same_bytes(name, INTERVAL_SECONDS.as_bytes()) {
        match value {
            ReadValue::Number(number) => {
                if slots.interval_seconds.is_some() {
                    return None;
                }
                slots.interval_seconds = Some(number);
                Some(slots)
            },
            ReadValue::Text(_) => None,
        }
    } else if same_bytes(name, START_TIME.as_bytes()) {
        match value {
            ReadValue::Number(number) => {
                if slots.start_secs.is_some() {
                    return None;
                }
                slots.start_secs = Some(number);
                Some(slots)
            },
            ReadValue::Text(_) => None,
        }
    } else {
        None
    }
}

/// Reads the member at or after `pos` and puts it into its place.
fn read_member(bytes: &[u8], pos: usize, slots: ReadSlots) -> (read: Option<(ReadSlots, usize)>)
    requires
        pos <= bytes.len(),
    ensures
        match read {
            Some((filled, end)) => pos < end <= bytes.len() && placed_from(bytes@, pos as int, slots@)
                == Some((filled@, end as int)),
            None => placed_from(bytes@, pos as int, slots@) is None,
        },
{
    let at_name: usize = skip_spaces(bytes, pos);
    let (name, after_name) = match read_quoted(bytes, at_name) {
        Some(found) => found,
        None => {
            return None;
        },
    };
    let after_colon: usize = match read_byte(bytes, after_name, COLON) {
        Some(end) => end,
        None => {
            return None;
        },
    };
    let at_value: usize = skip_spaces(bytes, after_colon);
    let (value, end) = match read_value(bytes, at_value) {
        Some(found) => found,
        None => {
            return None;
        },
    };
    match put(slots, name.as_slice(), value) {
        Some(filled) => Some((filled, end)),
        None => None,
    }
}

/// Reads the four members of the object that `bytes` is.
fn read_slots(bytes: &[u8]) -> (read: Option<ReadSlots>)
    ensures
        match read {
            Some(slots) => slots_of(bytes@) == Some(slots@),
            None => slots_of(bytes@) is None,
        },
{
    let empty = ReadSlots { initial_string: None, secret: None, interval_seconds: None, start_secs: None };
    let a: usize = match read_byte(bytes, 0, LEFT_BRACE) {
        Some(end) => end,
        None => {
            return None;
        },
    };
    let (first, b) = match read_member(bytes, a, empty) {
        Some(found) => found,
        None => {
            return None;
        },
    };
    let c: usize = match read_byte(bytes, b, COMMA) {
        Some(end) => end,
        None => {
            return None;
        },
    };
    let (second, d) = match read_member(bytes, c, first) {
        Some(found) => found,
        None => {
            return None;
        },
    };
    let e: usize = match read_byte(bytes, d, COMMA) {
        Some(end) => end,
        None => {
            return None;
        },
    };
    let (third, f) = match read_member(bytes, e, second) {
        Some(found) => found,
        None => {
            return None;
        },
    };
    let g: usize = match read_byte(bytes, f, COMMA) {
        Some(end) => end,
        None => {
            return None;
        },
    };
    let (fourth, h) = match read_member(bytes, g, third) {
        Some(found) => found,
        None => {
            return None;
        },
    };
    let i: usize = match read_byte(bytes, h, RIGHT_BRACE) {
        Some(end) => end,
        None => {
            return None;
        },
    };
    if skip_spaces(bytes, i) == bytes.len() {
        Some(fourth)
    } else {
        None
    }
}

/// Reads the state that `bytes` carry: the seed, the secret, the interval and
/// the start time in whole seconds.
pub fn read_payload(bytes: &[u8]) -> (read: Option<(String, String, u64, u64)>)
    ensures
        match read {
            Some((initial_string, secret, interval_seconds, start_secs)) => spells(
                bytes@,
                Snapshot {
                    initial_string: initial_string@,
                    secret: secret@,
                    interval_seconds,
                    start_secs,
                },
            ),
            None => !is_payload(bytes@),
        },
{
    let slots: ReadSlots = match read_slots(bytes) {
        Some(slots) => slots,
        None => {
            return None;
        },
    };
    match (slots.initial_string, slots.secret, slots.interval_seconds, slots.start_secs) {
        (Some(raw_seed), Some(raw_secret), Some(interval_seconds), Some(start_secs)) => {
            let initial_string: String = match string_from_utf8(raw_seed) {
                Some(text) => text,
                None => {
                    return None;
                },
            };
            let secret: String = match string_from_utf8(raw_secret) {
                Some(text) => text,
                None => {
                    return None;
                },
            };
            Some((initial_string, secret, interval_seconds, start_secs))
        },
        _ => None,
    }
}

/// Past the part that stands at `at`, the rest goes on.
proof fn lemma_skip_part(whole: Seq<u8>, at: int, part: Seq<u8>, rest: Seq<u8>)
    requires
        0 <= at <= whole.len(),
        whole.skip(at) == part + rest,
    ensures
        at + part.len() <= whole.len(),
        whole.skip(at + part.len()) == rest,
{
    assert(whole.skip(at).len() == part.len() + rest.len());
    assert(whole.skip(at + part.len()) =~= whole.skip(at).skip(part.len() as int));
    assert((part + rest).skip(part.len() as int) =~= rest);
}

/// Parts that are joined one after the other are the first part and then
/// the rest, joined in the same way.
proof fn lemma_join_nine(
    a: Seq<u8>,
    b: Seq<u8>,
    c: Seq<u8>,
    d: Seq<u8>,
    e: Seq<u8>,
    f: Seq<u8>,
    g: Seq<u8>,
    h: Seq<u8>,
    i: Seq<u8>,
)
    ensures
        a + b + c + d + e + f + g + h + i == a + (b + (c + (d + (e + (f + (g + (h + i))))))),
{
    lemma_join_three(a + b + c + d + e + f + g, h, i);
    lemma_join_three(a + b + c + d + e + f, g, h + i);
    lemma_join_three(a + b + c + d + e, f, g + (h + i));
    lemma_join_three(a + b + c + d, e, f + (g + (h + i)));
    lemma_join_three(a + b + c, d, e + (f + (g + (h + i))));
    lemma_join_three(a + b, c, d + (e + (f + (g + (h + i)))));
    lemma_join_three(a, b, c + (d + (e + (f + (g + (h + i))))));
}

/// Joining goes in any grouping.
proof fn lemma_join_three(a: Seq<u8>, b: Seq<u8>, c: Seq<u8>)
    ensures
        (a + b) + c == a + (b + c),
{
    assert((a + b) + c =~= a + (b + c));
}

/// A written number is made of digits that spell it.
proof fn lemma_decimal_digits(n: nat)
    ensures
        1 <= decimal(n).len(),
        forall|j: int| 0 <= j < decimal(n).len() ==> is_digit(#[trigger] decimal(n)[j]),
        digits_value(decimal(n)) == n,
    decreases n,
{
    let digits = decimal(n);
    if n < 10 {
        assert(digits.drop_last() =~= Seq::<u8>::empty());
        assert(digits_value(digits.drop_last()) == 0);
        assert(digits.last() == 0x30 + n);
    } else {
        lemma_decimal_digits(n / 10);
        assert(digits.drop_last() =~= decimal(n / 10));
        assert(digits.last() == 0x30 + n % 10);
    }
}

/// A written number starts with a digit, and with a zero only where it is
/// zero.
proof fn lemma_decimal_first(n: nat)
    ensures
        is_digit(decimal(n)[0]),
        n >= 1 ==> decimal(n)[0] != 0x30,
        n >= 10 ==> decimal(n).len() >= 2,
        n < 10 ==> decimal(n).len() == 1,
    decreases n,
{
    if n >= 10 {
        lemma_decimal_first(n / 10);
        lemma_decimal_digits(n / 10);
        assert(decimal(n)[0] == decimal(n / 10)[0]);
    }
}

/// An escaped byte is read back as the byte, and does not look like the end
/// of the string.
proof fn lemma_unit_of_escaped(whole: Seq<u8>, at: int, byte: u8, rest: Seq<u8>)
    requires
        0 <= at <= whole.len(),
        whole.skip(at) == escaped_byte(byte) + rest,
    ensures
        unit_from(whole, at) == Some((seq![byte], at + escaped_byte(byte).len())),
        at < whole.len(),
        whole[at] != QUOTE,
        1 <= escaped_byte(byte).len(),
{
    let written = escaped_byte(byte);
    assert(whole.skip(at).len() == written.len() + rest.len());
    assert forall|i: int| 0 <= i < written.len() implies whole[at + i] == written[i] by {
        assert(whole.skip(at)[i] == written[i]);
    }
    assert(whole[at] == written[0]);
    if byte < 0x20 && byte != 0x08 && byte != 0x09 && byte != 0x0a && byte != 0x0c && byte != 0x0d {
        lemma_hex_value_of_digit(byte / 16);
        lemma_hex_value_of_digit(byte % 16);
        assert(whole[at + 1] == written[1]);
        assert(whole[at + 2] == written[2]);
        assert(whole[at + 3] == written[3]);
        assert(whole[at + 4] == written[4]);
        assert(whole[at + 5] == written[5]);
        assert(code_unit_from(whole, at + 2) == Some(byte as u32));
        let scalar = byte as u32;
        assert((scalar & 0x7F) as u8 == byte) by (bit_vector)
            requires
                scalar == byte as u32,
                byte < 0x20,
        ;
        assert(encode_scalar(scalar) =~= seq![byte]);
    } else if written.len() == 2 {
        assert(whole[at + 1] == written[1]);
    }
}

/// An escaped string and its closing quote are read back as the string.
proof fn lemma_string_body_of_escaped(whole: Seq<u8>, at: int, raw: Seq<u8>, rest: Seq<u8>)
    requires
        0 <= at <= whole.len(),
        whole.skip(at) == escaped(raw) + seq![QUOTE] + rest,
    ensures
        string_body_from(whole, at) == Some((raw, at + escaped(raw).len() + 1)),
        at + escaped(raw).len() + 1 <= whole.len(),
    decreases raw.len(),
{
    assert(whole.skip(at).len() == escaped(raw).len() + 1 + rest.len());
    if raw.len() == 0 {
        assert(whole[at] == whole.skip(at)[0]);
        assert(raw =~= Seq::<u8>::empty());
    } else {
        let first = escaped_byte(raw[0]);
        let later = escaped(raw.drop_first()) + seq![QUOTE] + rest;
        assert(whole.skip(at) == first + later) by {
            assert(escaped(raw) + seq![QUOTE] + rest =~= first + later);
        }
        lemma_unit_of_escaped(whole, at, raw[0], later);
        lemma_skip_part(whole, at, first, later);
        lemma_string_body_of_escaped(whole, at + first.len(), raw.drop_first(), rest);
        assert(seq![raw[0]] + raw.drop_first() =~= raw);
    }
}

/// A written string is read back as its UTF-8 bytes, at the place where it
/// stands.
proof fn lemma_quoted_from(whole: Seq<u8>, at: int, text: Seq<char>, rest: Seq<u8>)
    requires
        0 <= at <= whole.len(),
        whole.skip(at) == quoted(text) + rest,
    ensures
        quoted_from(whole, at) == Some((encode_utf8(text), at + quoted(text).len())),
        at + quoted(text).len() <= whole.len(),
        whole.skip(at + quoted(text).len()) == rest,
        at < whole.len(),
        whole[at] == QUOTE,
{
    let raw = encode_utf8(text);
    assert(whole.skip(at).len() == quoted(text).len() + rest.len());
    assert(whole[at] == whole.skip(at)[0]);
    assert(whole.skip(at + 1) == escaped(raw) + seq![QUOTE] + rest) by {
        assert(whole.skip(at + 1) =~= whole.skip(at).skip(1));
        assert((quoted(text) + rest).skip(1) =~= escaped(raw) + seq![QUOTE] + rest);
    }
    lemma_string_body_of_escaped(whole, at + 1, raw, rest);
    lemma_skip_part(whole, at, quoted(text), rest);
}

/// A written number is read back at the place where it stands, where no
/// digit follows it.
proof fn lemma_number_from(whole: Seq<u8>, at: int, n: u64, rest: Seq<u8>)
    requires
        0 <= at <= whole.len(),
        whole.skip(at) == decimal(n as nat) + rest,
        rest.len() == 0 || !is_digit(rest[0]),
    ensures
        number_from(whole, at) == Some((n, at + decimal(n as nat).len())),
        at + decimal(n as nat).len() <= whole.len(),
        whole.skip(at + decimal(n as nat).len()) == rest,
        at < whole.len(),
        is_digit(whole[at]),
{
    let digits = decimal(n as nat);
    let input = digits + rest;
    lemma_decimal_digits(n as nat);
    lemma_decimal_first(n as nat);
    assert forall|j: int| 0 <= j < digits.len() implies is_digit(#[trigger] input[j]) by {
        assert(input[j] == digits[j]);
    }
    lemma_digit_count(input, digits.len() as int);
    assert(input.take(digits.len() as int) =~= digits);
    assert(input[0] == digits[0]);
    assert(whole.skip(at).len() == digits.len() + rest.len());
    assert(whole[at] == whole.skip(at)[0]);
    lemma_skip_part(whole, at, digits, rest);
}

/// A byte that is no space is found at the place where it stands.
proof fn lemma_byte_from(whole: Seq<u8>, at: int, byte: u8, rest: Seq<u8>)
    requires
        0 <= at <= whole.len(),
        whole.skip(at) == seq![byte] + rest,
        !is_space(byte),
    ensures
        byte_from(whole, at, byte) == Some(at + 1),
        at + 1 <= whole.len(),
        whole.skip(at + 1) == rest,
{
    assert(whole.skip(at).len() == 1 + rest.len());
    assert(whole[at] == whole.skip(at)[0]);
    lemma_skip_part(whole, at, seq![byte], rest);
}

/// A written member with a string for its value is read back at the place
/// where it stands.
proof fn lemma_text_member_from(
    whole: Seq<u8>,
    at: int,
    name: Seq<char>,
    text: Seq<char>,
    rest: Seq<u8>,
)
    requires
        0 <= at <= whole.len(),
        whole.skip(at) == member(name, quoted(text)) + rest,
    ensures
        member_from(whole, at) == Some(
            (
                encode_utf8(name),
                Value::Text(encode_utf8(text)),
                at + member(name, quoted(text)).len(),
            ),
        ),
        at + member(name, quoted(text)).len() <= whole.len(),
        whole.skip(at + member(name, quoted(text)).len()) == rest,
{
    let after_colon = quoted(text) + rest;
    let after_name = seq![COLON] + after_colon;
    assert(whole.skip(at) == quoted(name) + after_name) by {
        lemma_join_three(quoted(name) + seq![COLON], quoted(text), rest);
        lemma_join_three(quoted(name), seq![COLON], after_colon);
    }
    lemma_quoted_from(whole, at, name, after_name);
    let a = at + quoted(name).len();
    lemma_byte_from(whole, a, COLON, after_colon);
    lemma_quoted_from(whole, a + 1, text, rest);
}

/// A written member with a number for its value is read back at the place
/// where it stands, where no digit follows it.
proof fn lemma_number_member_from(whole: Seq<u8>, at: int, name: Seq<char>, n: u64, rest: Seq<u8>)
    requires
        0 <= at <= whole.len(),
        whole.skip(at) == member(name, decimal(n as nat)) + rest,
        rest.len() == 0 || !is_digit(rest[0]),
    ensures
        member_from(whole, at) == Some(
            (encode_utf8(name), Value::Number(n), at + member(name, decimal(n as nat)).len()),
        ),
        at + member(name, decimal(n as nat)).len() <= whole.len(),
        whole.skip(at + member(name, decimal(n as nat)).len()) == rest,
{
    let after_colon = decimal(n as nat) + rest;
    let after_name = seq![COLON] + after_colon;
    assert(whole.skip(at) == quoted(name) + after_name) by {
        lemma_join_three(quoted(name) + seq![COLON], decimal(n as nat), rest);
        lemma_join_three(quoted(name), seq![COLON], after_colon);
    }
    lemma_quoted_from(whole, at, name, after_name);
    let a = at + quoted(name).len();
    lemma_byte_from(whole, a, COLON, after_colon);
    lemma_number_from(whole, a + 1, n, rest);
}

/// The four names are four different byte strings.
proof fn lemma_names_differ()
    ensures
        encode_utf8(INITIAL_STRING@) != encode_utf8(SECRET@),
        encode_utf8(INITIAL_STRING@) != encode_utf8(INTERVAL_SECONDS@),
        encode_utf8(INITIAL_STRING@) != encode_utf8(START_TIME@),
        encode_utf8(SECRET@) != encode_utf8(INTERVAL_SECONDS@),
        encode_utf8(SECRET@) != encode_utf8(START_TIME@),
        encode_utf8(INTERVAL_SECONDS@) != encode_utf8(START_TIME@),
{
    reveal_strlit("initial_string");
    reveal_strlit("secret");
    reveal_strlit("interval_seconds");
    reveal_strlit("start_time");
    encode_utf8_decode_utf8(INITIAL_STRING@);
    encode_utf8_decode_utf8(SECRET@);
    encode_utf8_decode_utf8(INTERVAL_SECONDS@);
    encode_utf8_decode_utf8(START_TIME@);
    assert(INITIAL_STRING@.len() == 14);
    assert(SECRET@.len() == 6);
    assert(INTERVAL_SECONDS@.len() == 16);
    assert(START_TIME@.len() == 10);
}

/// The members that a state is written with, each in its place.
spec fn slots_written(state: Snapshot) -> Slots {
    Slots {
        initial_string: Some(encode_utf8(state.initial_string)),
        secret: Some(encode_utf8(state.secret)),
        interval_seconds: Some(state.interval_seconds),
        start_secs: Some(state.start_secs),
    }
}

/// What is written for a state is read back as its four members.
proof fn lemma_slots_of_payload(state: Snapshot)
    ensures
        slots_of(payload_bytes(state)) == Some(slots_written(state)),
{
    let input = payload_bytes(state);
    let first = member(INITIAL_STRING@, quoted(state.initial_string));
    let second = member(SECRET@, quoted(state.secret));
    let third = member(INTERVAL_SECONDS@, decimal(state.interval_seconds as nat));
    let fourth = member(START_TIME@, decimal(state.start_secs as nat));
    let closing = seq![RIGHT_BRACE];
    let from_fourth = fourth + closing;
    let before_fourth = seq![COMMA] + from_fourth;
    let from_third = third + before_fourth;
    let before_third = seq![COMMA] + from_third;
    let from_second = second + before_third;
    let before_second = seq![COMMA] + from_second;
    let from_first = first + before_second;
    lemma_names_differ();
    assert(input.skip(0) == seq![LEFT_BRACE] + from_first) by {
        lemma_join_nine(
            seq![LEFT_BRACE],
            first,
            seq![COMMA],
            second,
            seq![COMMA],
            third,
            seq![COMMA],
            fourth,
            closing,
        );
        assert(input.skip(0) =~= input);
    }
    lemma_byte_from(input, 0, LEFT_BRACE, from_first);
    lemma_text_member_from(input, 1, INITIAL_STRING@, state.initial_string, before_second);
    let b: int = (1 + first.len()) as int;
    let one = place(no_slots(), encode_utf8(INITIAL_STRING@), Value::Text(encode_utf8(state.initial_string)));
    assert(placed_from(input, 1, no_slots()) == Some((one.unwrap(), b)));
    lemma_byte_from(input, b, COMMA, from_second);
    lemma_text_member_from(input, b + 1, SECRET@, state.secret, before_third);
    let d: int = b + 1 + second.len();
    let two = place(one.unwrap(), encode_utf8(SECRET@), Value::Text(encode_utf8(state.secret)));
    assert(placed_from(input, b + 1, one.unwrap()) == Some((two.unwrap(), d)));
    lemma_byte_from(input, d, COMMA, from_third);
    assert(before_fourth[0] == COMMA);
    lemma_number_member_from(input, d + 1, INTERVAL_SECONDS@, state.interval_seconds, before_fourth);
    let f: int = d + 1 + third.len();
    let three = place(two.unwrap(), encode_utf8(INTERVAL_SECONDS@), Value::Number(state.interval_seconds));
    assert(placed_from(input, d + 1, two.unwrap()) == Some((three.unwrap(), f)));
    lemma_byte_from(input, f, COMMA, from_fourth);
    assert(closing[0] == RIGHT_BRACE);
    lemma_number_member_from(input, f + 1, START_TIME@, state.start_secs, closing);
    let h: int = f + 1 + fourth.len();
    let four = place(three.unwrap(), encode_utf8(START_TIME@), Value::Number(state.start_secs));
    assert(placed_from(input, f + 1, three.unwrap()) == Some((four.unwrap(), h)));
    assert(four == Some(slots_written(state)));
    assert(closing + Seq::<u8>::empty() =~= closing);
    lemma_byte_from(input, h, RIGHT_BRACE, Seq::<u8>::empty());
    assert(h + 1 == input.len()) by {
        assert(input.skip(h + 1).len() == 0);
    }
}

/// What is written for a state spells that state.
pub proof fn lemma_payload_spells(state: Snapshot)
    ensures
        spells(payload_bytes(state), state),
{
    lemma_slots_of_payload(state);
    encode_utf8_valid_utf8(state.initial_string);
    encode_utf8_valid_utf8(state.secret);
    encode_utf8_decode_utf8(state.initial_string);
    encode_utf8_decode_utf8(state.secret);
}

/// Two states that are written alike are one state.
pub proof fn lemma_payload_bytes_injective(a: Snapshot, b: Snapshot)
    requires
        payload_bytes(a) == payload_bytes(b),
    ensures
        a == b,
{
    lemma_payload_spells(a);
    lemma_payload_spells(b);
}

/// Reading what was written for a state gives that state.
pub proof fn lemma_payload_state_of_bytes(state: Snapshot)
    ensures
        is_payload(payload_bytes(state)),
        payload_state(payload_bytes(state)) == state,
{
    lemma_payload_spells(state);
}

} // verus!
