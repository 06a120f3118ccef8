//! Instants, spans of time and the wall clock.

use vstd::prelude::*;

verus! {

/// The first second, counted from the Unix epoch, that chrono's calendar has.
pub const FIRST_SECOND: i64 = -8_334_601_228_800;

/// The last second, counted from the Unix epoch, that chrono's calendar has.
pub const LAST_SECOND: i64 = 8_210_266_876_799;

/// The most seconds that a span of time has in chrono.
pub const SPAN_SECONDS: i64 = 9_223_372_036_854_775;

/// An instant, as whole seconds since the Unix epoch and nanoseconds since the last whole second.
#[derive(Clone, Copy, Debug, PartialEq, Eq, Structural)]
pub struct Moment {
    pub secs: i64,
    pub nanos: u32,
}

impl Moment {
    /// The calendar has this instant.
    pub open spec fn wf(self) -> bool {
        &&& FIRST_SECOND <= self.secs <= LAST_SECOND
        &&& self.nanos < 1_000_000_000
    }

    /// Nanoseconds since the Unix epoch.
    pub open spec fn nanoseconds(self) -> int {
        self.secs * 1_000_000_000 + self.nanos
    }

    /// Milliseconds since the Unix epoch, rounded down.
    pub open spec fn milliseconds(self) -> int {
        self.nanoseconds() / 1_000_000
    }

    /// What the clock shows. Nothing is said of the instant but that the calendar has it and that
    /// it does not lie before the Unix epoch.
    pub fn now() -> (moment: Moment)
        ensures
            moment.wf(),
            moment.secs >= 0,
    {
        let (secs, nanos): (i64, u32) = local_now();
        Moment { secs, nanos }
    }

    /// Milliseconds since the Unix epoch, rounded down.
    pub fn timestamp_millis(&self) -> (millis: i64)
        requires
            self.wf(),
        ensures
            millis == self.milliseconds(),
    {
        self.secs * 1_000 + (self.nanos / 1_000_000) as i64
    }
}

/// `chrono::Local::now`, as the seconds since the Unix epoch and the nanoseconds since the last
/// whole second that it reads. The instant itself depends on the clock. It is never before the
/// epoch, never beyond the calendar, and never within a leap second.
#[verifier::external_body]
fn local_now() -> (reading: (i64, u32))
    ensures
        0 <= reading.0 <= LAST_SECOND,
        reading.1 < 1_000_000_000,
{
    let now = chrono::Local::now();
    (now.timestamp(), now.timestamp_subsec_nanos())
}

/// `chrono::Duration::try_seconds`: a span of so many seconds, given in milliseconds. There is none
/// longer than `i64::MAX` milliseconds in either direction.
#[verifier::external_body]
fn try_seconds(seconds: i64) -> (millis: Option<i64>)
    ensures
        millis is Some <==> -SPAN_SECONDS <= seconds <= SPAN_SECONDS,
        millis matches Some(m) ==> m == seconds * 1_000,
{
    chrono::Duration::try_seconds(seconds).map(|span| span.num_milliseconds())
}

/// `chrono::Duration::from_std` of a standard duration of so many whole seconds: the same span,
/// given in milliseconds. There is none longer than `i64::MAX` milliseconds.
#[verifier::external_body]
fn from_std_seconds(seconds: u64) -> (millis: Option<i64>)
    ensures
        millis is Some <==> seconds <= SPAN_SECONDS,
        millis matches Some(m) ==> m == seconds * 1_000,
{
    chrono::Duration::from_std(core::time::Duration::from_secs(seconds)).ok().map(
        |span| span.num_milliseconds(),
    )
}

/// The offset of local time from UTC in seconds, at an instant that
/// `chrono::DateTime::from_timestamp` makes and that is turned into a `DateTime<Local>`. Which
/// offset that is depends on the time zone of the machine. It is less than a day either way, as in
/// every time zone that chrono takes.
#[verifier::external_body]
pub(crate) fn local_offset(secs: i64, nanos: u32) -> (offset: i32)
    requires
        FIRST_SECOND <= secs <= LAST_SECOND,
        nanos < 1_000_000_000,
    ensures
        -86_400 < offset < 86_400,
{
    let utc = chrono::DateTime::<chrono::Utc>::from_timestamp(secs, nanos).unwrap();
    chrono::DateTime::<chrono::Local>::from(utc).offset().local_minus_utc()
}

/// A number of seconds read as a signed number of the same width.
pub open spec fn signed_seconds(seconds: u64) -> int {
    if seconds <= i64::MAX {
        seconds as int
    } else {
        seconds - 0x1_0000_0000_0000_0000
    }
}

/// The length in milliseconds of the window in which samples are kept. The number of seconds is
/// read as a signed number, and there is no window where chrono has no span of that length.
pub fn window_millis(seconds: u64) -> (millis: Option<i64>)
    ensures
        millis is Some <==> -SPAN_SECONDS <= signed_seconds(seconds) <= SPAN_SECONDS,
        millis matches Some(m) ==> m == signed_seconds(seconds) * 1_000,
{
    let signed: i64 = seconds as i64;
    assert(signed == (if seconds <= 0x7fff_ffff_ffff_ffff {
        seconds as int
    } else {
        seconds - 0x1_0000_0000_0000_0000
    })) by (bit_vector)
        requires
            signed == seconds as i64,
    ;
    try_seconds(signed)
}

/// The length in milliseconds of the stretch of time that the graph shows, where chrono has a span
/// of that length.
pub fn interval_millis(seconds: u64) -> (millis: Option<i64>)
    ensures
        millis == (if seconds <= SPAN_SECONDS {
            Some((seconds * 1_000) as i64)
        } else {
            None
        }),
{
    from_std_seconds(seconds)
}

}
