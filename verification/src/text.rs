//! Pieces of text that are shown.

use vstd::prelude::*;
use vstd::string::*;

verus! {

/// The text that the standard library shows for a duration of so many microseconds.
pub uninterp spec fn duration_text(micros: u64) -> Seq<char>;

/// The `Debug` output of `core::time::Duration`, for a duration made by `Duration::from_micros`.
/// The text is a function of the number of microseconds; what it looks like is left unsaid, since
/// the documentation of the standard library does not fix it.
#[verifier::external_body]
pub(crate) fn duration_debug(micros: u64) -> (text: String)
    ensures
        text@ == duration_text(micros),
{
    format!("{:?}", core::time::Duration::from_micros(micros))
}

/// The decimal digit of a number below ten.
pub open spec fn digit(d: nat) -> char {
    (('0' as u32) + d) as char
}

/// The last `width` decimal digits of `n`, with leading zeros.
pub open spec fn padded(n: nat, width: nat) -> Seq<char>
    decreases width,
{
    if width == 0 {
        Seq::empty()
    } else {
        padded(n / 10, (width - 1) as nat).push(digit(n % 10))
    }
}

/// `n` in decimal, without leading zeros.
pub open spec fn decimal(n: nat) -> Seq<char>
    decreases n,
{
    if n < 10 {
        seq![digit(n)]
    } else {
        decimal(n / 10).push(digit(n % 10))
    }
}

/// A fraction of a second: nothing for none, and else a dot with as many digits as it needs, three,
/// six or nine.
pub open spec fn fraction_text(nanos: nat) -> Seq<char> {
    if nanos == 0 {
        Seq::empty()
    } else if nanos % 1_000_000 == 0 {
        seq!['.'] + padded(nanos / 1_000_000, 3)
    } else if nanos % 1_000 == 0 {
        seq!['.'] + padded(nanos / 1_000, 6)
    } else {
        seq!['.'] + padded(nanos, 9)
    }
}

/// A time of day: hours, minutes and seconds of two digits each, and the fraction of a second.
pub open spec fn clock_text(seconds: nat, nanos: nat) -> Seq<char> {
    padded(seconds / 3600, 2) + seq![':'] + padded(seconds / 60 % 60, 2) + seq![':'] + padded(
        seconds % 60,
        2,
    ) + fraction_text(nanos)
}

/// The `Debug` output of `chrono::NaiveTime`, for the time that
/// `NaiveTime::from_num_seconds_from_midnight_opt` makes of the seconds since midnight and the
/// nanoseconds since the last whole second. That function knows every such time of a day without
/// leap seconds.
#[verifier::external_body]
pub(crate) fn time_debug(seconds: u32, nanos: u32) -> (text: String)
    requires
        seconds < 86_400,
        nanos < 1_000_000_000,
    ensures
        text@ == clock_text(seconds as nat, nanos as nat),
{
    format!("{:?}", chrono::NaiveTime::from_num_seconds_from_midnight_opt(seconds, nanos).unwrap())
}

/// The text of one decimal digit.
fn digit_text(d: u64) -> (text: &'static str)
    requires
        d < 10,
    ensures
        text@ == seq![digit(d as nat)],
{
    proof {
        reveal_strlit("0");
        reveal_strlit("1");
        reveal_strlit("2");
        reveal_strlit("3");
        reveal_strlit("4");
        reveal_strlit("5");
        reveal_strlit("6");
        reveal_strlit("7");
        reveal_strlit("8");
        reveal_strlit("9");
    }
    let text = if d == 0 {
        "0"
    } else if d == 1 {
        "1"
    } else if d == 2 {
        "2"
    } else if d == 3 {
        "3"
    } else if d == 4 {
        "4"
    } else if d == 5 {
        "5"
    } else if d == 6 {
        "6"
    } else if d == 7 {
        "7"
    } else if d == 8 {
        "8"
    } else {
        "9"
    };
    assert(text@ =~= seq![digit(d as nat)]);
    text
}

/// A number in decimal.
pub fn decimal_string(n: u64) -> (text: String)
    ensures
        text@ == decimal(n as nat),
    decreases n,
{
    if n < 10 {
        digit_text(n).to_owned()
    } else {
        let mut text: String = decimal_string(n / 10);
        text.append(digit_text(n % 10));
        assert(text@ =~= decimal(n as nat));
        text
    }
}

/// One text after the other.
pub fn joined(first: &str, second: &str) -> (text: String)
    ensures
        text@ == first@ + second@,
{
    let mut text: String = first.to_owned();
    text.append(second);
    text
}

}
