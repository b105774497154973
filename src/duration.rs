//! Points in time and the relative durations shown on the menu.

use vstd::prelude::*;

verus! {

/// The last second of the year 9999, in seconds since the Unix epoch.
pub const MAX_UNIX_TIME: i64 = 253402300799;

/// Seconds in a day.
pub const SECS_PER_DAY: i64 = 86400;

/// A point in time, in whole seconds since the Unix epoch (UTC), between the epoch and
/// the end of the year 9999.
#[derive(Clone, Copy, Debug, PartialEq, Eq, Structural)]
pub struct Timestamp {
    secs: i64,
}

/// The text that `%Y-%m-%d %H:%M` gives for the UTC time `secs` seconds after the epoch.
pub uninterp spec fn utc_minute_text(secs: int) -> Seq<u8>;

/// Relies on chrono's `DateTime::from_timestamp`, which gives `Some` for every second of
/// the years 1970 to 9999, and on `format("%Y-%m-%d %H:%M")`, which depends on the time
/// alone.
#[verifier::external_body]
fn format_utc_minute(secs: i64) -> (r: Vec<u8>)
    requires
        0 <= secs <= MAX_UNIX_TIME,
    ensures
        r@ == utc_minute_text(secs as int),
{
    match chrono::DateTime::from_timestamp(secs, 0) {
        Some(t) => t.format("%Y-%m-%d %H:%M").to_string().into_bytes(),
        None => Vec::new(),
    }
}

/// `v` held to the range of a `Timestamp`.
pub open spec fn clamp_time(v: int) -> int {
    if v < 0 {
        0
    } else if v > MAX_UNIX_TIME {
        MAX_UNIX_TIME as int
    } else {
        v
    }
}

impl Timestamp {
    #[verifier::type_invariant]
    spec fn inv(self) -> bool {
        0 <= self.secs <= MAX_UNIX_TIME
    }

    /// Seconds since the epoch.
    pub closed spec fn unix(self) -> int {
        self.secs as int
    }

    /// The time `secs` seconds after the epoch, held to the epoch and the end of 9999.
    pub fn new(secs: i64) -> (r: Self)
        ensures
            r.unix() == clamp_time(secs as int),
    {
        let s = if secs < 0 {
            0
        } else if secs > MAX_UNIX_TIME {
            MAX_UNIX_TIME
        } else {
            secs
        };
        Timestamp { secs: s }
    }

    /// Seconds since the epoch.
    pub fn unix_secs(&self) -> (r: i64)
        ensures
            r == self.unix(),
            0 <= r <= MAX_UNIX_TIME,
    {
        proof {
            use_type_invariant(self);
        }
        self.secs
    }
}

/// The decimal digits of `n`, without leading zeros.
pub open spec fn decimal(n: nat) -> Seq<u8>
    decreases n,
{
    if n < 10 {
        seq![(48 + n) as u8]
    } else {
        decimal(n / 10).push((48 + n % 10) as u8)
    }
}

/// `v` as `{:02}` prints it: a minus sign when negative, zero-padded to two characters.
pub open spec fn two_digits(v: int) -> Seq<u8> {
    if v < 0 {
        seq![45u8] + decimal((-v) as nat)
    } else if v < 10 {
        seq![48u8] + decimal(v as nat)
    } else {
        decimal(v as nat)
    }
}

/// `HH:MM:SS` of a gap of `d` seconds: hours modulo 24, minutes and seconds modulo 60,
/// each carrying the sign of `d` as Rust's `/` and `%` do.
pub open spec fn clock_text(d: int) -> Seq<u8> {
    let a = if d < 0 { -d } else { d };
    let sg = if d < 0 { -1int } else { 1int };
    two_digits(sg * ((a / 3600) % 24)) + seq![58u8] + two_digits(sg * ((a / 60) % 60)) + seq![
        58u8,
    ] + two_digits(sg * (a % 60))
}

/// How long ago `then` was at `now`: the date and minute of `then` when the gap is over
/// 30 days; `<whole days>d HH:MM:SS` when it is over one day; `HH:MM:SS` otherwise.
pub open spec fn duration_text(now: int, then: int) -> Seq<u8> {
    let d = now - then;
    if d > 30 * SECS_PER_DAY as int {
        utc_minute_text(then)
    } else if d > SECS_PER_DAY as int {
        decimal((d / SECS_PER_DAY as int) as nat) + seq![100u8, 32u8] + clock_text(d)
    } else {
        clock_text(d)
    }
}

/// Appends the decimal digits of `n`.
pub fn push_decimal(out: &mut Vec<u8>, n: u64)
    ensures
        final(out)@ == old(out)@ + decimal(n as nat),
    decreases n,
{
    if n >= 10 {
        push_decimal(out, n / 10);
    }
    out.push(48u8 + (n % 10) as u8);
    assert(final(out)@ =~= old(out)@ + decimal(n as nat)) by {
        if n >= 10 {
            assert(decimal(n as nat) == decimal((n / 10) as nat).push((48 + n % 10) as u8));
        }
    }
}

/// Appends `v` as `{:02}` prints it.
fn push_two_digits(out: &mut Vec<u8>, v: i64)
    requires
        -1000 < v < 1000,
    ensures
        final(out)@ == old(out)@ + two_digits(v as int),
{
    if v < 0 {
        out.push(45u8);
        push_decimal(out, (-v) as u64);
    } else {
        if v < 10 {
            out.push(48u8);
        }
        push_decimal(out, v as u64);
    }
    assert(final(out)@ =~= old(out)@ + two_digits(v as int));
}

/// Appends `HH:MM:SS` of a gap of `d` seconds.
fn push_clock(out: &mut Vec<u8>, d: i64)
    requires
        -MAX_UNIX_TIME <= d <= MAX_UNIX_TIME,
    ensures
        final(out)@ == old(out)@ + clock_text(d as int),
{
    let a: i64 = if d < 0 {
        -d
    } else {
        d
    };
    let sg: i64 = if d < 0 {
        -1
    } else {
        1
    };
    push_two_digits(out, sg * ((a / 3600) % 24));
    out.push(58u8);
    push_two_digits(out, sg * ((a / 60) % 60));
    out.push(58u8);
    push_two_digits(out, sg * (a % 60));
    assert(final(out)@ =~= old(out)@ + clock_text(d as int));
}

/// How long ago `then` was at `now`, as the menu shows it.
pub fn relative_duration_format(now: &Timestamp, then: &Timestamp) -> (r: Vec<u8>)
    ensures
        r@ == duration_text(now.unix(), then.unix()),
{
    let n = now.unix_secs();
    let t = then.unix_secs();
    let d = n - t;
    let mut out: Vec<u8> = Vec::new();
    if d > 30 * SECS_PER_DAY {
        return format_utc_minute(t);
    } else if d > SECS_PER_DAY {
        push_decimal(&mut out, (d / SECS_PER_DAY) as u64);
        out.push(100u8);
        out.push(32u8);
    }
    push_clock(&mut out, d);
    assert(out@ =~= duration_text(n as int, t as int));
    out
}

} // verus!
