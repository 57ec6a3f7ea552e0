//! Instants and elapsed-time decomposition.
//!
//! A [`Timestamp`] is an instant held as plain integers: non-leap seconds
//! since the Unix epoch plus nanoseconds since the last whole second.
//! [`decompose`] turns the span between two instants into total days,
//! hours, minutes and seconds, each an independent total over the whole
//! span; remainder reduction is the formatter's job.

use vstd::prelude::*;
use vstd::arithmetic::div_mod::{
    lemma_fundamental_div_mod, lemma_div_is_ordered, lemma_div_by_multiple,
};
use vstd::string::StringExecFns;
use chrono::TimeZone;

use super::TrackerError;

verus! {

/// Number of nanoseconds in one second.
pub const NANOS_PER_SEC: u32 = 1_000_000_000;

/// Bound on the seconds of a well-formed timestamp: far wider than any
/// instant the stored format can denote, yet small enough that the
/// difference of two well-formed timestamps never overflows `i64`.
pub const MAX_TS_SECS: i64 = 2_000_000_000_000_000_000;

/// An instant: non-leap seconds since the Unix epoch, plus the
/// nanoseconds since the last whole second.
#[derive(Clone, Copy, Debug, PartialEq, Eq, Structural)]
pub struct Timestamp {
    pub secs: i64,
    pub nanos: u32,
}

impl Timestamp {
    /// A well-formed instant: a true sub-second part and bounded seconds.
    pub open spec fn wf(self) -> bool {
        &&& self.nanos < NANOS_PER_SEC
        &&& -MAX_TS_SECS <= self.secs <= MAX_TS_SECS
    }

    /// Strict instant order.
    pub open spec fn spec_lt(self, other: Timestamp) -> bool {
        ||| self.secs < other.secs
        ||| (self.secs == other.secs && self.nanos < other.nanos)
    }

    /// Whole seconds elapsed from `self` to `later`; non-negative
    /// whenever `self` is not after `later`.
    pub open spec fn spec_elapsed(self, later: Timestamp) -> int {
        later.secs - self.secs - (if later.nanos < self.nanos {
            1int
        } else {
            0int
        })
    }

    /// Builds a well-formed instant, rejecting out-of-range parts.
    pub fn new(secs: i64, nanos: u32) -> (r: Option<Timestamp>)
        ensures
            r == (if nanos < NANOS_PER_SEC && -MAX_TS_SECS <= secs <= MAX_TS_SECS {
                Some(Timestamp { secs, nanos })
            } else {
                None::<Timestamp>
            }),
            r matches Some(t) ==> t.wf(),
    {
        if nanos < NANOS_PER_SEC && -MAX_TS_SECS <= secs && secs <= MAX_TS_SECS {
            Some(Timestamp { secs, nanos })
        } else {
            None
        }
    }

    /// Strict instant order, executable form.
    pub fn lt(&self, other: &Timestamp) -> (b: bool)
        ensures
            b == self.spec_lt(*other),
    {
        self.secs < other.secs || (self.secs == other.secs && self.nanos < other.nanos)
    }
}

/// Elapsed-time totals over one span: each unit is the whole span
/// expressed in that unit, with no remainder reduction.
#[derive(Clone, Copy, Debug, PartialEq, Eq, Structural)]
pub struct Breakdown {
    pub days: i64,
    pub hours: i64,
    pub minutes: i64,
    pub seconds: i64,
}

/// The totals of a span of `s` whole seconds.
pub open spec fn spec_breakdown(s: int) -> Breakdown {
    Breakdown {
        days: (s / 86400) as i64,
        hours: (s / 3600) as i64,
        minutes: (s / 60) as i64,
        seconds: s as i64,
    }
}

/// Totals of the span from `earlier` up to `later`.  The later instant
/// must lie strictly after the earlier one; otherwise the span is
/// refused as [`TrackerError::InvalidOrder`].
pub fn decompose(later: &Timestamp, earlier: &Timestamp) -> (r: Result<Breakdown, TrackerError>)
    requires
        later.wf(),
        earlier.wf(),
    ensures
        earlier.spec_lt(*later) ==> r == Ok::<Breakdown, TrackerError>(
            spec_breakdown(earlier.spec_elapsed(*later)),
        ),
        !earlier.spec_lt(*later) ==> r == Err::<Breakdown, TrackerError>(
            TrackerError::InvalidOrder,
        ),
{
    if earlier.lt(later) {
        let mut s: i64 = later.secs - earlier.secs;
        if later.nanos < earlier.nanos {
            s = s - 1;
        }
        assert(s == earlier.spec_elapsed(*later));
        assert(s >= 0);
        Ok(Breakdown { days: s / 86400, hours: s / 3600, minutes: s / 60, seconds: s })
    } else {
        Err(TrackerError::InvalidOrder)
    }
}

/// What parsing a stored timestamp yields: the instant's non-leap
/// seconds since the Unix epoch and its sub-second nanoseconds, or
/// nothing when the text does not match the stored format.
pub uninterp spec fn ts_parse(s: Seq<char>) -> Option<(i64, u32)>;

/// Relies on chrono's `DateTime::parse_from_str` with the stored format
/// `%Y-%m-%d %H:%M:%S%.9f %z`, and on `timestamp` /
/// `timestamp_subsec_nanos` to read the parsed instant: the outcome
/// depends on the input characters alone.
#[verifier::external_body]
fn parse_ts_raw(s: &str) -> (r: Option<(i64, u32)>)
    ensures
        r == ts_parse(s@),
{
    match chrono::DateTime::parse_from_str(s, "%Y-%m-%d %H:%M:%S%.9f %z") {
        Ok(dt) => Some((dt.timestamp(), dt.timestamp_subsec_nanos())),
        Err(_) => None,
    }
}

/// Parses a stored timestamp into a well-formed instant.  Text that the
/// stored format refuses, and instants outside the representable range,
/// are rejected as [`TrackerError::ParseError`].
pub fn parse_timestamp(s: &str) -> (r: Result<Timestamp, TrackerError>)
    ensures
        ts_parse(s@) is None ==> r == Err::<Timestamp, TrackerError>(TrackerError::ParseError),
        ts_parse(s@) matches Some(p) ==> r == (
        if p.1 < NANOS_PER_SEC && -MAX_TS_SECS <= p.0 <= MAX_TS_SECS {
            Ok::<Timestamp, TrackerError>(Timestamp { secs: p.0, nanos: p.1 })
        } else {
            Err::<Timestamp, TrackerError>(TrackerError::ParseError)
        }),
        r matches Ok(t) ==> t.wf(),
{
    match parse_ts_raw(s) {
        None => Err(TrackerError::ParseError),
        Some((sec, nan)) => match Timestamp::new(sec, nan) {
            Some(t) => Ok(t),
            None => Err(TrackerError::ParseError),
        },
    }
}

/// The display form of an instant (`%Y-%m-%d %H:%M:%S`, UTC), or
/// nothing when the instant lies outside the calendar's range.
pub uninterp spec fn ts_display(secs: int, nanos: int) -> Option<Seq<char>>;

/// Relies on chrono's `TimeZone::timestamp_opt` for `Utc` and on
/// `DateTime::format` with `%Y-%m-%d %H:%M:%S`: the outcome depends on
/// the two arguments alone.
#[verifier::external_body]
fn format_ts_display(secs: i64, nanos: u32) -> (r: Option<String>)
    ensures
        r matches Some(out) ==> (ts_display(secs as int, nanos as int) matches Some(v)
            && out@ == v),
        r is None ==> ts_display(secs as int, nanos as int) is None,
{
    match chrono::Utc.timestamp_opt(secs, nanos).single() {
        Some(dt) => Some(format!("{}", dt.format("%Y-%m-%d %H:%M:%S"))),
        None => None,
    }
}

/// Renders an instant for display, without its sub-second part.
/// Instants the calendar cannot hold are refused as
/// [`TrackerError::DateTimeFormatting`].
pub fn format_time_for_output(t: &Timestamp) -> (r: Result<String, TrackerError>)
    ensures
        ts_display(t.secs as int, t.nanos as int) matches Some(v) ==> (r matches Ok(out)
            && out@ == v),
        ts_display(t.secs as int, t.nanos as int) is None ==> r == Err::<String, TrackerError>(
            TrackerError::DateTimeFormatting,
        ),
{
    match format_ts_display(t.secs, t.nanos) {
        Some(out) => Ok(out),
        None => Err(TrackerError::DateTimeFormatting),
    }
}

/// The stored form of an instant (`%Y-%m-%d %H:%M:%S%.9f %z`, UTC
/// offset `+0000`), or nothing when the instant lies outside the
/// calendar's range.
pub uninterp spec fn ts_store(secs: int, nanos: int) -> Option<Seq<char>>;

/// Relies on chrono's `TimeZone::timestamp_opt` for `Utc` and on
/// `DateTime::format` with `%Y-%m-%d %H:%M:%S%.9f %z`: the outcome
/// depends on the two arguments alone.
#[verifier::external_body]
fn format_ts_store(secs: i64, nanos: u32) -> (r: Option<String>)
    ensures
        r matches Some(out) ==> (ts_store(secs as int, nanos as int) matches Some(v)
            && out@ == v),
        r is None ==> ts_store(secs as int, nanos as int) is None,
{
    match chrono::Utc.timestamp_opt(secs, nanos).single() {
        Some(dt) => Some(format!("{}", dt.format("%Y-%m-%d %H:%M:%S%.9f %z"))),
        None => None,
    }
}

/// Renders an instant in the stored timestamp format, fit to be parsed
/// back by [`parse_timestamp`].  Instants the calendar cannot hold are
/// refused as [`TrackerError::DateTimeFormatting`].
pub fn store_timestamp(t: &Timestamp) -> (r: Result<String, TrackerError>)
    ensures
        ts_store(t.secs as int, t.nanos as int) matches Some(v) ==> (r matches Ok(out)
            && out@ == v),
        ts_store(t.secs as int, t.nanos as int) is None ==> r == Err::<String, TrackerError>(
            TrackerError::DateTimeFormatting,
        ),
{
    match format_ts_store(t.secs, t.nanos) {
        Some(out) => Ok(out),
        None => Err(TrackerError::DateTimeFormatting),
    }
}

/// The decimal digit character for `d`.
pub open spec fn digit_char(d: int) -> char {
    if d == 0 {
        '0'
    } else if d == 1 {
        '1'
    } else if d == 2 {
        '2'
    } else if d == 3 {
        '3'
    } else if d == 4 {
        '4'
    } else if d == 5 {
        '5'
    } else if d == 6 {
        '6'
    } else if d == 7 {
        '7'
    } else if d == 8 {
        '8'
    } else {
        '9'
    }
}

/// The decimal numeral of `n`, most significant digit first.
pub open spec fn spec_digits(n: nat) -> Seq<char>
    decreases n,
{
    if n < 10 {
        seq![digit_char(n as int)]
    } else {
        spec_digits(n / 10).push(digit_char((n % 10) as int))
    }
}

/// The one-character string of a single decimal digit.
fn digit_str(d: u64) -> (r: &'static str)
    requires
        d < 10,
    ensures
        r@.len() == 1,
        r@[0] == digit_char(d as int),
{
    proof {
        reveal_strlit("0");
        reveal_strlit("1");
        reveal_strlit("2");
        reveal_strlit("3");
        reveal_strlit("4");
        reveal_strlit("5");
        reveal_strlit("6");
        reveal_strlit("7");
        reveal_strlit("8");
        reveal_strlit("9");
    }
    match d {
        0 => "0",
        1 => "1",
        2 => "2",
        3 => "3",
        4 => "4",
        5 => "5",
        6 => "6",
        7 => "7",
        8 => "8",
        _ => "9",
    }
}

/// Renders `n` as its decimal numeral.
pub fn u64_to_string(n: u64) -> (r: String)
    ensures
        r@ == spec_digits(n as nat),
    decreases n,
{
    if n < 10 {
        let s = digit_str(n).to_owned();
        proof {
            assert(s@ =~= spec_digits(n as nat));
        }
        s
    } else {
        let mut s = u64_to_string(n / 10);
        s.append(digit_str(n % 10));
        proof {
            assert(s@ =~= spec_digits(n as nat));
        }
        s
    }
}

/// The elapsed-time string for a span of `s` whole seconds: surviving
/// units in coarse-to-fine order, each as `"<unit>: <value>, "`, where
/// every unit after the first shows only its remainder past the coarser
/// units, and zero-valued units are suppressed.
pub open spec fn spec_elapsed_str(s: int) -> Seq<char> {
    let d = s / 86400;
    let h = s / 3600 - (s / 86400) * 24;
    let m = s / 60 - (s / 3600) * 60;
    let sec = s - (s / 60) * 60;
    (if d != 0 {
        "days: "@ + spec_digits(d as nat) + ", "@
    } else {
        Seq::<char>::empty()
    }) + (if h != 0 {
        "hours: "@ + spec_digits(h as nat) + ", "@
    } else {
        Seq::<char>::empty()
    }) + (if m != 0 {
        "minutes: "@ + spec_digits(m as nat) + ", "@
    } else {
        Seq::<char>::empty()
    }) + (if sec != 0 {
        "seconds: "@ + spec_digits(sec as nat) + ", "@
    } else {
        Seq::<char>::empty()
    })
}

/// For `0 <= q*c <= x` with `c > 0`, the quotient `q*b` of the multiple
/// `q*(b*c)` stays below `x / c`: the remainder of a coarser unit,
/// expressed in a finer one, never exceeds the finer total.
proof fn lemma_scaled_quotient_le(q: int, b: int, c: int, x: int)
    requires
        0 <= q,
        0 < b,
        0 < c,
        q * (b * c) <= x,
    ensures
        q * b <= x / c,
{
    lemma_div_by_multiple(q * b, c);
    assert((q * b) * c == q * (b * c)) by (nonlinear_arith);
    lemma_div_is_ordered(q * b * c, x, c);
}

/// Renders the time elapsed from `last` up to `now`, as surviving units
/// in coarse-to-fine order.  A `now` before `last` is refused as
/// [`TrackerError::InvalidOrder`]; equal instants (zero elapsed) yield
/// the empty string.
pub fn format_time_since(last: &Timestamp, now: &Timestamp) -> (r: Result<String, TrackerError>)
    requires
        last.wf(),
        now.wf(),
    ensures
        now.spec_lt(*last) ==> r == Err::<String, TrackerError>(TrackerError::InvalidOrder),
        !now.spec_lt(*last) ==> (r matches Ok(out) && out@ == spec_elapsed_str(
            last.spec_elapsed(*now),
        )),
{
    if now.lt(last) {
        return Err(TrackerError::InvalidOrder);
    }
    let ghost s: int = last.spec_elapsed(*now);
    if !last.lt(now) {
        let out = String::new();
        proof {
            assert(s == 0);
            assert(out@ =~= spec_elapsed_str(s));
        }
        return Ok(out);
    }
    let b = decompose(now, last).unwrap();
    proof {
        assert(b == spec_breakdown(s));
        lemma_fundamental_div_mod(s, 86400);
        lemma_fundamental_div_mod(s, 3600);
        lemma_fundamental_div_mod(s, 60);
        lemma_scaled_quotient_le(s / 86400, 24, 3600, s);
        lemma_scaled_quotient_le(s / 3600, 60, 60, s);
    }
    let d: u64 = b.days as u64;
    let h: u64 = (b.hours as u64) - d * 24;
    let m: u64 = (b.minutes as u64) - (b.hours as u64) * 60;
    let sec: u64 = (b.seconds as u64) - (b.minutes as u64) * 60;
    let mut out = String::new();
    if d != 0 {
        out.append("days: ");
        out.append(u64_to_string(d).as_str());
        out.append(", ");
    }
    if h != 0 {
        out.append("hours: ");
        out.append(u64_to_string(h).as_str());
        out.append(", ");
    }
    if m != 0 {
        out.append("minutes: ");
        out.append(u64_to_string(m).as_str());
        out.append(", ");
    }
    if sec != 0 {
        out.append("seconds: ");
        out.append(u64_to_string(sec).as_str());
        out.append(", ");
    }
    proof {
        assert(out@ =~= spec_elapsed_str(s));
    }
    Ok(out)
}

} // verus!
