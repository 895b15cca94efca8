//! The generator: a seed, a secret, an interval and a start time, and the
//! token that they give for each interval.

use crate::digest::digest_text;
use crate::digest::hex_digest;
use crate::digest::is_hex_char;
use crate::error::TokenError;
use crate::payload::lemma_payload_bytes_not_empty;
use crate::payload::payload_bytes;
use crate::payload::write_payload;
use crate::payload::Snapshot;
use crate::reader::is_payload;
use crate::reader::lemma_payload_state_of_bytes;
use crate::reader::payload_state;
use crate::reader::read_payload;
use crate::time::elapsed_seconds;
use crate::time::Timestamp;
use crate::time::NANOS_PER_SEC;
use crate::transport::base64_bytes;
use crate::transport::base64_decode;
use crate::transport::base64_encode;
use crate::transport::base64_text;
use crate::transport::is_base64_char;
use vstd::prelude::*;
use vstd::utf8::*;

verus! {

/// A generator of tokens that change from one interval to the next.
///
/// The interval is not checked when a generator is made: one with an
/// interval of zero exists, and deriving a token from it by time fails with
/// `TokenError::InvalidInterval`.
#[derive(Debug)]
pub struct EvolvingString {
    /// The seed.
    pub initial_string: String,
    /// The secret that the parties share.
    pub secret: String,
    /// How long one token lasts, in seconds.
    pub interval_seconds: u64,
    /// When the generator was made.
    pub start_time: Timestamp,
}

/// A generator as a value: its texts as characters, its start time as
/// nanoseconds since the Unix epoch.
pub struct EvolvingStringView {
    pub initial_string: Seq<char>,
    pub secret: Seq<char>,
    pub interval_seconds: u64,
    pub start_time: nat,
}

impl View for EvolvingString {
    type V = EvolvingStringView;

    open spec fn view(&self) -> EvolvingStringView {
        EvolvingStringView {
            initial_string: self.initial_string@,
            secret: self.secret@,
            interval_seconds: self.interval_seconds,
            start_time: self.start_time@,
        }
    }
}

/// The eight bytes of a number, the most significant first.
pub open spec fn be_bytes(n: u64) -> Seq<u8> {
    seq![
        (n / 0x100_0000_0000_0000) as u8,
        (n / 0x1_0000_0000_0000 % 0x100) as u8,
        (n / 0x100_0000_0000 % 0x100) as u8,
        (n / 0x1_0000_0000 % 0x100) as u8,
        (n / 0x100_0000 % 0x100) as u8,
        (n / 0x1_0000 % 0x100) as u8,
        (n / 0x100 % 0x100) as u8,
        (n % 0x100) as u8,
    ]
}

/// What is hashed for an interval: the seed's UTF-8 bytes, the secret's, and
/// the interval's index in eight bytes, in this order.
pub open spec fn token_message(initial_string: Seq<char>, secret: Seq<char>, index: u64) -> Seq<u8> {
    encode_utf8(initial_string) + encode_utf8(secret) + be_bytes(index)
}

/// What a fallible derivation gave, with the token as characters.
pub open spec fn shown(outcome: Result<String, TokenError>) -> Result<Seq<char>, TokenError> {
    match outcome {
        Ok(token) => Ok(token@),
        Err(error) => Err(error),
    }
}

/// What reading a generator gave, with the generator as a value.
pub open spec fn viewed(outcome: Result<EvolvingString, TokenError>) -> Result<
    EvolvingStringView,
    TokenError,
> {
    match outcome {
        Ok(generator) => Ok(generator@),
        Err(error) => Err(error),
    }
}

/// The generator that a text stands for, or why it stands for none: the text
/// must be base64, and the bytes it stands for must carry a state.
pub open spec fn decoded(text: Seq<char>) -> Result<EvolvingStringView, TokenError> {
    match base64_bytes(text) {
        None => Err(TokenError::DecodeError),
        Some(bytes) => if is_payload(bytes) {
            Ok(EvolvingStringView::restored(payload_state(bytes)))
        } else {
            Err(TokenError::FormatError)
        },
    }
}

impl EvolvingStringView {
    /// The token of the interval with the given index.
    pub open spec fn token(self, index: u64) -> Seq<char> {
        digest_text(token_message(self.initial_string, self.secret, index))
    }

    /// The token for a number of seconds past the start time.
    pub open spec fn predicted(self, n_seconds: u64) -> Result<Seq<char>, TokenError> {
        if self.interval_seconds == 0 {
            Err(TokenError::InvalidInterval)
        } else {
            Ok(self.token(n_seconds / self.interval_seconds))
        }
    }

    /// The token at the moment `now`, in nanoseconds since the Unix epoch.
    pub open spec fn current_at(self, now: nat) -> Result<Seq<char>, TokenError> {
        match elapsed_seconds(self.start_time, now) {
            None => Err(TokenError::ClockSkew),
            Some(elapsed) => if self.interval_seconds == 0 {
                Err(TokenError::InvalidInterval)
            } else {
                Ok(self.token((elapsed / (self.interval_seconds as nat)) as u64))
            },
        }
    }

    /// What is kept of the generator when it is written down.
    pub open spec fn snapshot(self) -> Snapshot {
        Snapshot {
            initial_string: self.initial_string,
            secret: self.secret,
            interval_seconds: self.interval_seconds,
            start_secs: (self.start_time / (NANOS_PER_SEC as nat)) as u64,
        }
    }

    /// The generator that a state is read as.
    pub open spec fn restored(state: Snapshot) -> EvolvingStringView {
        EvolvingStringView {
            initial_string: state.initial_string,
            secret: state.secret,
            interval_seconds: state.interval_seconds,
            start_time: (state.start_secs * NANOS_PER_SEC) as nat,
        }
    }

    /// The generator with its start time cut to the whole second.
    pub open spec fn at_whole_second(self) -> EvolvingStringView {
        EvolvingStringView::restored(self.snapshot())
    }

    /// The text that the generator is written as.
    pub open spec fn encoded(self) -> Seq<char> {
        base64_text(payload_bytes(self.snapshot()))
    }
}

/// Appends the eight bytes of a number, the most significant first.
fn push_be_bytes(out: &mut Vec<u8>, n: u64)
    ensures
        final(out)@ == old(out)@ + be_bytes(n),
{
    out.push((n / 0x100_0000_0000_0000) as u8);
    out.push((n / 0x1_0000_0000_0000 % 0x100) as u8);
    out.push((n / 0x100_0000_0000 % 0x100) as u8);
    out.push((n / 0x1_0000_0000 % 0x100) as u8);
    out.push((n / 0x100_0000 % 0x100) as u8);
    out.push((n / 0x1_0000 % 0x100) as u8);
    out.push((n / 0x100 % 0x100) as u8);
    out.push((n % 0x100) as u8);
    assert(out@ =~= old(out)@ + be_bytes(n));
}

impl EvolvingString {
    /// A generator that starts now, by the wall clock.
    pub fn new(initial_string: String, secret: String, interval_seconds: u64) -> (made: Self)
        ensures
            made.initial_string == initial_string,
            made.secret == secret,
            made.interval_seconds == interval_seconds,
    {
        EvolvingString::with_start_time(initial_string, secret, interval_seconds, Timestamp::now())
    }

    /// A generator that started at the given moment.
    pub fn with_start_time(
        initial_string: String,
        secret: String,
        interval_seconds: u64,
        start_time: Timestamp,
    ) -> (made: Self)
        ensures
            made.initial_string == initial_string,
            made.secret == secret,
            made.interval_seconds == interval_seconds,
            made.start_time == start_time,
    {
        EvolvingString { initial_string, secret, interval_seconds, start_time }
    }

    /// The token of the interval with the given index: the SHA-256 digest of
    /// the seed, the secret and the index, in lowercase hexadecimal.
    pub fn evolve(&self, interval_count: u64) -> (token: String)
        ensures
            token@ == self@.token(interval_count),
            token@.len() == 64,
            forall|i: int| 0 <= i < 64 ==> is_hex_char(#[trigger] token@[i]),
    {
        let mut message: Vec<u8> = Vec::new();
        message.extend_from_slice(self.initial_string.as_str().as_bytes());
        let ghost seed = message@;
        message.extend_from_slice(self.secret.as_str().as_bytes());
        assert(seed =~= encode_utf8(self.initial_string@));
        assert(message@ =~= seed + encode_utf8(self.secret@));
        push_be_bytes(&mut message, interval_count);
        hex_digest(message.as_slice())
    }

    /// The token for a moment `n_seconds` past the start time. The clock is
    /// not read.
    pub fn predict(&self, n_seconds: u64) -> (outcome: Result<String, TokenError>)
        ensures
            shown(outcome) == self@.predicted(n_seconds),
    {
        if self.interval_seconds == 0 {
            return Err(TokenError::InvalidInterval);
        }
        Ok(self.evolve(n_seconds / self.interval_seconds))
    }

    /// The token at the moment `now`.
    pub fn current_at(&self, now: &Timestamp) -> (outcome: Result<String, TokenError>)
        ensures
            shown(outcome) == self@.current_at(now@),
    {
        let elapsed: u64 = match now.whole_seconds_since(&self.start_time) {
            Some(seconds) => seconds,
            None => {
                return Err(TokenError::ClockSkew);
            },
        };
        if self.interval_seconds == 0 {
            return Err(TokenError::InvalidInterval);
        }
        Ok(self.evolve(elapsed / self.interval_seconds))
    }

    /// The token now, by the wall clock: what `current_at` gives for the
    /// clock's reading.
    pub fn current(&self) -> (outcome: Result<String, TokenError>)
        ensures
            exists|now: nat| shown(outcome) == #[trigger] self@.current_at(now),
    {
        let now: Timestamp = Timestamp::now();
        self.current_at(&now)
    }

    /// The generator as text: its state, written as bytes and those as
    /// base64. The start time is kept in whole seconds.
    pub fn to_base64(&self) -> (text: String)
        ensures
            text@ == self@.encoded(),
            decoded(text@) == Ok::<EvolvingStringView, TokenError>(self@.at_whole_second()),
            self@.at_whole_second().encoded() == text@,
            forall|i: int| 0 <= i < text@.len() ==> is_base64_char(#[trigger] text@[i]),
            text@.len() == 4 * ((payload_bytes(self@.snapshot()).len() + 2) / 3),
            text@.len() >= 4,
            text@.len() % 4 == 0,
    {
        let bytes: Vec<u8> = write_payload(
            self.initial_string.as_str(),
            self.secret.as_str(),
            self.interval_seconds,
            self.start_time.secs(),
        );
        proof {
            lemma_payload_state_of_bytes(self@.snapshot());
            lemma_encoded_at_whole_second(self@);
            lemma_payload_bytes_not_empty(self@.snapshot());
            lemma_four_for_three(bytes@.len());
        }
        base64_encode(bytes.as_slice())
    }

    /// The generator that a text stands for: the text is base64 of a JSON
    /// object with exactly the four members, in any order and with any
    /// spacing. The start time is the whole second that the text holds.
    pub fn from_base64(b64_encoded: &str) -> (outcome: Result<Self, TokenError>)
        ensures
            viewed(outcome) == decoded(b64_encoded@),
    {
        let bytes: Vec<u8> = match base64_decode(b64_encoded) {
            Ok(bytes) => bytes,
            Err(_) => {
                return Err(TokenError::DecodeError);
            },
        };
        match read_payload(bytes.as_slice()) {
            Some((initial_string, secret, interval_seconds, start_secs)) => Ok(
                EvolvingString {
                    initial_string,
                    secret,
                    interval_seconds,
                    start_time: Timestamp::from_secs(start_secs),
                },
            ),
            None => Err(TokenError::FormatError),
        }
    }
}

/// Four characters for every three bytes or part of three are a multiple of
/// four, and at least four where there is a byte.
proof fn lemma_four_for_three(n: nat)
    ensures
        (4 * ((n + 2) / 3)) % 4 == 0,
        n >= 1 ==> 4 * ((n + 2) / 3) >= 4,
{
}

/// All the offsets that fall in one interval give one token, that of the
/// interval: where `first` and `second` both lie at or past `index` whole
/// intervals and before `index + 1` of them, both are predicted the token
/// with that index.
pub proof fn lemma_offsets_in_one_interval(
    generator: EvolvingStringView,
    index: nat,
    first: u64,
    second: u64,
)
    requires
        index * generator.interval_seconds <= first < (index + 1) * generator.interval_seconds,
        index * generator.interval_seconds <= second < (index + 1) * generator.interval_seconds,
    ensures
        index <= u64::MAX,
        generator.predicted(first) == Ok::<Seq<char>, TokenError>(generator.token(index as u64)),
        generator.predicted(second) == generator.predicted(first),
{
    let interval = generator.interval_seconds as int;
    assert(interval > 0) by (nonlinear_arith)
        requires
            index * interval < (index + 1) * interval,
    ;
    lemma_floor(first as int, interval, index as int);
    lemma_floor(second as int, interval, index as int);
}

/// The quotient is the number of whole divisors below the dividend.
proof fn lemma_floor(dividend: int, divisor: int, quotient: int)
    by (nonlinear_arith)
    requires
        divisor > 0,
        quotient * divisor <= dividend < (quotient + 1) * divisor,
    ensures
        dividend / divisor == quotient,
{
}

/// The token at a moment is the token predicted for the whole seconds that
/// have passed since the start: `current_at` and `predicted` go by the same
/// intervals.
pub proof fn lemma_current_is_predicted(generator: EvolvingStringView, now: nat, n_seconds: u64)
    requires
        elapsed_seconds(generator.start_time, now) == Some(n_seconds as nat),
    ensures
        generator.current_at(now) == generator.predicted(n_seconds),
{
}

/// Within the first interval after the start, the token at the moment is the
/// token predicted for an offset of zero.
pub proof fn lemma_current_at_start(generator: EvolvingStringView, now: nat)
    requires
        generator.start_time <= now < generator.start_time + generator.interval_seconds
            * NANOS_PER_SEC,
    ensures
        generator.current_at(now) == generator.predicted(0),
{
    let elapsed = (now - generator.start_time) / (NANOS_PER_SEC as int);
    let interval = generator.interval_seconds as int;
    assert(elapsed < interval);
    assert(interval > 0);
    lemma_floor(elapsed, interval, 0);
}

/// An offset of zero falls in the interval with index zero, whatever the
/// interval's length above zero.
pub proof fn lemma_offset_zero(generator: EvolvingStringView)
    requires
        generator.interval_seconds > 0,
    ensures
        generator.predicted(0) == Ok::<Seq<char>, TokenError>(generator.token(0)),
{
}

/// With an interval of one second every offset is its own interval's index,
/// and no derivation fails for the interval's sake.
pub proof fn lemma_interval_of_one(generator: EvolvingStringView, n_seconds: u64, now: nat)
    requires
        generator.interval_seconds == 1,
    ensures
        generator.predicted(n_seconds) == Ok::<Seq<char>, TokenError>(generator.token(n_seconds)),
        generator.start_time <= now ==> generator.current_at(now) is Ok,
        generator.current_at(now) != Err::<Seq<char>, TokenError>(TokenError::InvalidInterval),
{
}

/// Writing a generator down keeps its seed, its secret, its interval and the
/// whole seconds of its start time, and nothing of the rest: the generator
/// cut to the whole second is written as the same text, and cutting it twice
/// changes nothing more.
pub proof fn lemma_encoded_at_whole_second(generator: EvolvingStringView)
    ensures
        generator.at_whole_second().snapshot() == generator.snapshot(),
        generator.at_whole_second().encoded() == generator.encoded(),
        generator.at_whole_second().at_whole_second() == generator.at_whole_second(),
        generator.at_whole_second().initial_string == generator.initial_string,
        generator.at_whole_second().secret == generator.secret,
        generator.at_whole_second().interval_seconds == generator.interval_seconds,
{
    let seconds = generator.snapshot().start_secs;
    assert((seconds * NANOS_PER_SEC) as nat / (NANOS_PER_SEC as nat) == seconds);
}

/// Two generators with the same seed and secret give the same token for the
/// same interval, whatever their intervals' lengths and start times.
pub proof fn lemma_token_by_seed_and_secret(a: EvolvingStringView, b: EvolvingStringView, index: u64)
    requires
        a.initial_string == b.initial_string,
        a.secret == b.secret,
    ensures
        a.token(index) == b.token(index),
{
}

} // verus!
