//! Calendar times and the days between them.
use vstd::prelude::*;
use vstd::string::*;
use crate::text;

verus! {

/// A moment: seconds since 1970-01-01 00:00:00 UTC, and nanoseconds within the second.
#[derive(Debug, Clone, Copy, PartialEq, Eq, Structural)]
pub struct Moment {
    pub secs: i64,
    pub nanos: u32,
}

/// The moment that `NaiveDateTime::parse_from_str` reads in a text by a format, as seconds and
/// nanoseconds.
pub uninterp spec fn parsed_datetime(text: Seq<char>, format: Seq<char>) -> Option<(i64, u32)>;

/// The whole days that `TimeDelta::num_days` finds in the difference of two moments, each given as
/// seconds and nanoseconds; `None` where one of them is no calendar time.
pub uninterp spec fn days_apart(a: (i64, u32), b: (i64, u32)) -> Option<i64>;

/// How many whole days a span of nanoseconds holds, rounded towards zero.
pub open spec fn whole_days(span: int) -> int {
    if span < 0 {
        -((-span) / 86_400_000_000_000)
    } else {
        span / 86_400_000_000_000
    }
}

/// Whether `t` lies in the years 0 to 9999 and is no leap second.
pub open spec fn common(t: (i64, u32)) -> bool {
    -62_167_219_200 <= t.0 <= 253_402_300_799 && t.1 < 1_000_000_000
}

/// Nanoseconds since 1970.
pub open spec fn nanoseconds(t: (i64, u32)) -> int {
    t.0 * 1_000_000_000 + t.1
}

/// `NaiveDateTime::parse_from_str`, the time taken as UTC.
#[verifier::external_body]
fn parse_datetime(text: &str, format: &str) -> (r: Option<(i64, u32)>)
    ensures
        r == parsed_datetime(text@, format@),
{
    let t = chrono::NaiveDateTime::parse_from_str(text, format).ok()?.and_utc();
    Some((t.timestamp(), t.timestamp_subsec_nanos()))
}

/// `TimeDelta::num_days` of the difference `a - b` of two calendar times. In the years 0 to 9999,
/// leap seconds aside, that is the difference in days, rounded towards zero.
#[verifier::external_body]
fn days_between(a: (i64, u32), b: (i64, u32)) -> (r: Option<i64>)
    ensures
        r == days_apart(a, b),
        common(a) && common(b) ==> r is Some && r->0 == whole_days(
            nanoseconds(a) - nanoseconds(b),
        ),
{
    let x = chrono::DateTime::from_timestamp(a.0, a.1)?.naive_utc();
    let y = chrono::DateTime::from_timestamp(b.0, b.1)?.naive_utc();
    Some((x - y).num_days())
}

/// `Utc::now`: the present moment. Nothing is said of it.
#[verifier::external_body]
pub(crate) fn now() -> (r: Moment) {
    let t = chrono::Utc::now();
    Moment { secs: t.timestamp(), nanos: t.timestamp_subsec_nanos() }
}

/// A time as OpenSSL prints it, without the time zone and the white space around it.
pub open spec fn bare_time(text: Seq<char>) -> Seq<char> {
    text::trimmed(text::without_trailing(text::trimmed(text), "GMT"@))
}

/// The moment that OpenSSL's print of a time gives: by the first of two formats that fits.
pub open spec fn moment_of(text: Seq<char>) -> Option<(i64, u32)> {
    match parsed_datetime(bare_time(text), "%b %e %H:%M:%S %Y"@) {
        Some(t) => Some(t),
        None => parsed_datetime(bare_time(text), "%b %d %H:%M:%S %Y"@),
    }
}

/// The whole days from `now` until a printed time.
pub open spec fn days_left(text: Seq<char>, now: Moment) -> Option<i64> {
    match moment_of(text) {
        Some(t) => days_apart(t, (now.secs, now.nanos)),
        None => None,
    }
}

/// Whether `t` comes before `now`.
pub open spec fn before(t: (i64, u32), now: Moment) -> bool {
    t.0 < now.secs || (t.0 == now.secs && t.1 < now.nanos)
}

/// Whether `t` comes after `now`.
pub open spec fn after(t: (i64, u32), now: Moment) -> bool {
    t.0 > now.secs || (t.0 == now.secs && t.1 > now.nanos)
}

/// Reads OpenSSL's print of a time.
pub fn parse_time(text: &str) -> (r: Option<Moment>)
    ensures
        match r {
            Some(m) => moment_of(text@) == Some((m.secs, m.nanos)),
            None => moment_of(text@) is None,
        },
{
    proof {
        reveal_strlit("GMT");
    }
    let bare: String = text::trim(&text::trim_end_matches(&text::trim(text), "GMT"));
    match parse_datetime(&bare, "%b %e %H:%M:%S %Y") {
        Some(t) => Some(Moment { secs: t.0, nanos: t.1 }),
        None => match parse_datetime(&bare, "%b %d %H:%M:%S %Y") {
            Some(t) => Some(Moment { secs: t.0, nanos: t.1 }),
            None => None,
        },
    }
}

/// Whether `r` is how many whole days of 24 hours lie between `now` and a printed time, as far as both
/// are in the years 0 to 9999: none or more for a time that is still to come, and less than none for one
/// that is over by a day or more.
pub open spec fn counts(text: Seq<char>, now: Moment, r: Option<i64>) -> bool {
    match moment_of(text) {
        Some(t) => common(t) && common((now.secs, now.nanos)) ==> {
            let span = (t.0 - now.secs) * 1_000_000_000 + (t.1 - now.nanos);
            &&& r is Some
            &&& span >= 0 ==> r->0 >= 0 && 86_400_000_000_000 * r->0 <= span < 86_400_000_000_000 * (
            r->0 + 1)
            &&& span < 0 ==> r->0 <= 0 && 86_400_000_000_000 * (r->0 - 1) < span
                <= 86_400_000_000_000 * r->0
        },
        None => r is None,
    }
}

/// The whole days from `now` until a printed time: positive for one in the future.
pub fn days_until(text: &str, now: Moment) -> (r: Option<i64>)
    ensures
        r == days_left(text@, now),
        counts(text@, now, r),
{
    match parse_time(text) {
        Some(t) => days_between((t.secs, t.nanos), (now.secs, now.nanos)),
        None => None,
    }
}

/// The time zone after a time does not count, nor does white space around either.
pub proof fn zone_is_left_out(time: Seq<char>)
    requires
        time.len() > 0,
        !text::white_space(time[0]),
        !text::white_space(time.last()),
        !text::ends(time, "GMT"@),
    ensures
        moment_of(time + " GMT"@) == moment_of(time),
        moment_of(" "@ + time + " GMT"@) == moment_of(time),
        bare_time(time) == time,
{
    reveal_strlit("GMT");
    reveal_strlit(" GMT");
    reveal_strlit(" ");
    let zoned = time + " GMT"@;
    let spaced = " "@ + zoned;
    assert(text::trimmed_start(time) == time);
    assert(text::trimmed_end(time) == time);
    assert(text::without_trailing(time, "GMT"@) == time);
    assert(text::trimmed_start(zoned) == zoned);
    assert(text::trimmed_end(zoned) == zoned);
    assert(spaced.drop_first() =~= zoned);
    assert(text::trimmed_start(spaced) == zoned);
    assert(" "@ + time + " GMT"@ =~= spaced);
    let cut = time + seq![' '];
    assert(zoned.subrange(zoned.len() - 3, zoned.len() as int) =~= "GMT"@);
    assert(zoned.take(zoned.len() - 3) =~= cut);
    if text::ends(cut, "GMT"@) {
        assert(cut.subrange(cut.len() - 3, cut.len() as int)[2] == 'T');
        assert(cut.last() == ' ');
    }
    assert(text::without_trailing(cut, "GMT"@) == cut);
    assert(text::without_trailing(zoned, "GMT"@) == cut);
    assert(text::trimmed_start(cut) == cut);
    assert(cut.drop_last() =~= time);
    assert(text::trimmed_end(cut) == time);
}

/// A time that the first format does not fit is read by the second one, with the day in two digits.
pub proof fn both_formats_count(text: Seq<char>)
    ensures
        parsed_datetime(bare_time(text), "%b %e %H:%M:%S %Y"@) is Some ==> moment_of(text)
            == parsed_datetime(bare_time(text), "%b %e %H:%M:%S %Y"@),
        parsed_datetime(bare_time(text), "%b %d %H:%M:%S %Y"@) is Some ==> moment_of(text) is Some,
{
}

} // verus!
