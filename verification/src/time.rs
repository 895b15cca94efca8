//! Points on the wall clock, counted from the Unix epoch.

use std::time::Duration;
use std::time::SystemTime;
use std::time::SystemTimeError;
use std::time::UNIX_EPOCH;
use vstd::prelude::*;

verus! {

/// How many nanoseconds make a second.
pub const NANOS_PER_SEC: u32 = 1_000_000_000;

/// A moment at or after 1970-01-01T00:00:00Z, to the nanosecond.
///
/// Its view is the number of nanoseconds since the Unix epoch.
#[derive(Clone, Copy, Debug, PartialEq, Eq)]
pub struct Timestamp {
    secs: u64,
    nanos: u32,
}

impl View for Timestamp {
    type V = nat;

    closed spec fn view(&self) -> nat {
        (self.secs * NANOS_PER_SEC + self.nanos) as nat
    }
}

/// The whole seconds from `start` to `now`, both in nanoseconds since the
/// Unix epoch; none where `now` lies before `start`.
pub open spec fn elapsed_seconds(start: nat, now: nat) -> Option<nat> {
    if now < start {
        None
    } else {
        Some(((now - start) / (NANOS_PER_SEC as int)) as nat)
    }
}

/// `std::time::SystemTime`, as the clock hands it out. Nothing is known of a
/// value.
#[verifier::external_type_specification]
#[verifier::external_body]
pub struct ExSystemTime(SystemTime);

/// `std::time::SystemTimeError`, which `SystemTime::duration_since` gives
/// for a time that lies before the one it is measured from. Nothing is read
/// from a value.
#[verifier::external_type_specification]
#[verifier::external_body]
pub struct ExSystemTimeError(SystemTimeError);

/// `SystemTime::now`: the wall clock as the system reports it. Nothing is
/// claimed of the value.
#[verifier::external_body]
fn wall_clock() -> SystemTime {
    SystemTime::now()
}

/// `SystemTime::duration_since` against `UNIX_EPOCH`: the time that lies
/// between the epoch and `time`, or the error where `time` is earlier than
/// the epoch. Nothing is claimed of the value.
#[verifier::external_body]
fn since_unix_epoch(time: &SystemTime) -> Result<Duration, SystemTimeError> {
    time.duration_since(UNIX_EPOCH)
}

/// `Duration::as_secs`: the whole seconds of a duration. Nothing is claimed
/// of the number.
pub assume_specification[ Duration::as_secs ](duration: &Duration) -> u64;

/// `Duration::subsec_nanos`: the nanoseconds of a duration past its whole
/// seconds, which are fewer than make a second.
pub assume_specification[ Duration::subsec_nanos ](duration: &Duration) -> (nanos: u32)
    ensures
        nanos < 1_000_000_000,
;

impl Timestamp {
    #[verifier::type_invariant]
    spec fn well_formed(self) -> bool {
        self.nanos < NANOS_PER_SEC
    }

    /// The moment `secs` seconds and `nanos` nanoseconds after the Unix
    /// epoch; none where `nanos` is a second or more.
    pub fn new(secs: u64, nanos: u32) -> (made: Option<Timestamp>)
        ensures
            nanos >= NANOS_PER_SEC ==> made is None,
            nanos < NANOS_PER_SEC ==> made is Some && made->0@ == secs * NANOS_PER_SEC + nanos,
    {
        if nanos < NANOS_PER_SEC {
            Some(Timestamp { secs, nanos })
        } else {
            None
        }
    }

    /// The moment a whole number of seconds after the Unix epoch.
    pub fn from_secs(secs: u64) -> (made: Timestamp)
        ensures
            made@ == secs * NANOS_PER_SEC,
    {
        Timestamp { secs, nanos: 0 }
    }

    /// The wall clock's reading: the moment that `from_unix_offset` gives for
    /// what the clock shows, which is known only when it is read.
    pub fn now() -> (made: Timestamp)
        ensures
            exists|offset: Option<(u64, u32)>| made@ == #[trigger] Timestamp::moment_at(offset),
    {
        let offset: Option<(u64, u32)> = match since_unix_epoch(&wall_clock()) {
            Ok(elapsed) => Some((elapsed.as_secs(), elapsed.subsec_nanos())),
            Err(_) => None,
        };
        let made: Timestamp = Timestamp::from_unix_offset(offset);
        assert(made@ == Timestamp::moment_at(offset));
        made
    }

    /// The moment, in nanoseconds since the Unix epoch, that a clock shows
    /// which stands at the given seconds and nanoseconds past the epoch, or
    /// before the epoch where there are none: a clock before the epoch counts
    /// as standing at it, and nanoseconds that make a second or more count
    /// as none.
    pub open spec fn moment_at(offset: Option<(u64, u32)>) -> nat {
        match offset {
            None => 0,
            Some((secs, nanos)) => if nanos < NANOS_PER_SEC {
                (secs * NANOS_PER_SEC + nanos) as nat
            } else {
                (secs * NANOS_PER_SEC) as nat
            },
        }
    }

    /// The moment that a clock shows which stands at the given seconds and
    /// nanoseconds past the Unix epoch, or before the epoch where there are
    /// none.
    pub fn from_unix_offset(offset: Option<(u64, u32)>) -> (made: Timestamp)
        ensures
            made@ == Timestamp::moment_at(offset),
    {
        match offset {
            Some((secs, nanos)) => match Timestamp::new(secs, nanos) {
                Some(read) => read,
                None => Timestamp::from_secs(secs),
            },
            None => Timestamp::from_secs(0),
        }
    }

    /// The whole seconds since the Unix epoch.
    pub fn secs(&self) -> (secs: u64)
        ensures
            secs == self@ / (NANOS_PER_SEC as nat),
    {
        proof {
            use_type_invariant(self);
        }
        self.secs
    }

    /// The nanoseconds past the whole second.
    pub fn subsec_nanos(&self) -> (nanos: u32)
        ensures
            nanos == self@ % (NANOS_PER_SEC as nat),
    {
        proof {
            use_type_invariant(self);
        }
        self.nanos
    }

    /// The whole seconds that have passed at `self` since `earlier`; none
    /// where `self` lies before `earlier`.
    pub fn whole_seconds_since(&self, earlier: &Timestamp) -> (elapsed: Option<u64>)
        ensures
            match elapsed {
                Some(seconds) => elapsed_seconds(earlier@, self@) == Some(seconds as nat),
                None => elapsed_seconds(earlier@, self@) is None,
            },
    {
        proof {
            use_type_invariant(self);
            use_type_invariant(earlier);
        }
        if self.secs < earlier.secs || (self.secs == earlier.secs && self.nanos < earlier.nanos) {
            None
        } else if self.nanos >= earlier.nanos {
            Some(self.secs - earlier.secs)
        } else {
            Some(self.secs - earlier.secs - 1)
        }
    }
}

} // verus!
