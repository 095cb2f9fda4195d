//! What times, zones and windows mean: the laws of reading raw values as
//! points in time.
use crate::batch::ids;
use crate::batch::time;
use crate::batch::time::{NaiveZonePolicy, TimeInterpreter, TimePredicate, TimeRaw, UnixTime};
use crate::batch::zone;
use crate::text;
use vstd::prelude::*;
use vstd::utf8::*;

verus! {

// ---------------------------------------------------------------------
// Windows
// ---------------------------------------------------------------------

/// A window holds its start and everything after it, up to its end, which it
/// does not hold. Without a start it goes back for ever, and without an end it
/// goes on for ever.
pub proof fn law_windows_run_from_start_to_end(s: UnixTime, e: UnixTime, t: UnixTime)
    ensures
        (TimePredicate { start: None, end: None }).holds(t),
        (TimePredicate { start: Some(s), end: None }).holds(t) <==> s.nanos <= t.nanos,
        (TimePredicate { start: None, end: Some(e) }).holds(t) <==> t.nanos < e.nanos,
        (TimePredicate { start: Some(s), end: Some(e) }).holds(t) <==> s.nanos <= t.nanos < e.nanos,
        s.nanos < e.nanos ==> (TimePredicate { start: Some(s), end: Some(e) }).holds(s),
        !(TimePredicate { start: Some(s), end: Some(e) }).holds(e),
{
}

// ---------------------------------------------------------------------
// Epoch values
// ---------------------------------------------------------------------

/// A number of nanoseconds after the epoch is just that point in time; before
/// the epoch there is none. A microsecond is a thousand nanoseconds, a
/// millisecond a thousand microseconds, and a second a thousand milliseconds.
pub proof fn law_units_agree(n: i64, thousandfold: i64, r: Option<UnixTime>)
    requires
        thousandfold == n * 1000,
    ensures
        TimeInterpreter::EpochNanos.means(TimeRaw::Int(n), r) <==> match r {
            Some(t) => n >= 0 && t.nanos == n,
            None => n < 0,
        },
        TimeInterpreter::EpochMicros.means(TimeRaw::Int(n), r)
            <==> TimeInterpreter::EpochNanos.means(TimeRaw::Int(thousandfold), r),
        TimeInterpreter::EpochMillis.means(TimeRaw::Int(n), r)
            <==> TimeInterpreter::EpochMicros.means(TimeRaw::Int(thousandfold), r),
        TimeInterpreter::EpochSeconds.means(TimeRaw::Int(n), r)
            <==> TimeInterpreter::EpochMillis.means(TimeRaw::Int(thousandfold), r),
{
}

/// Times grow with the values, and none is before the epoch.
pub proof fn law_later_values_are_later(a: i64, b: i64, unit: TimeInterpreter, s: UnixTime, t: UnixTime)
    requires
        unit == TimeInterpreter::EpochSeconds || unit == TimeInterpreter::EpochMillis || unit
            == TimeInterpreter::EpochMicros || unit == TimeInterpreter::EpochNanos,
        unit.means(TimeRaw::Int(a), Some(s)),
        unit.means(TimeRaw::Int(b), Some(t)),
    ensures
        a < b <==> s.nanos < t.nanos,
        s.nanos >= 0,
{
}

/// A number is no text, and a text no number: what is not of the kind that an
/// interpreter reads means nothing to it.
pub proof fn law_kinds_are_kept_apart(n: i64, s: &str, r: Option<UnixTime>, policy: NaiveZonePolicy)
    ensures
        TimeInterpreter::EpochSeconds.means(TimeRaw::Str(s), r) <==> r is None,
        TimeInterpreter::EpochMillis.means(TimeRaw::Str(s), r) <==> r is None,
        TimeInterpreter::EpochMicros.means(TimeRaw::Str(s), r) <==> r is None,
        TimeInterpreter::EpochNanos.means(TimeRaw::Str(s), r) <==> r is None,
        TimeInterpreter::StringTimestamp(policy).means(TimeRaw::Int(n), r) <==> r is None,
        TimeInterpreter::Uuidv7.means(TimeRaw::Int(n), r) <==> r is None,
        TimeInterpreter::Ulid.means(TimeRaw::Int(n), r) <==> r is None,
{
}

/// The time that an identifier holds is the number of milliseconds that it
/// spells, and there is none where it spells none.
pub proof fn law_identifiers_hold_milliseconds(s: &str, r: Option<UnixTime>)
    requires
        match ids::uuid_millis(encode_utf8(text::trimmed(s@))) {
            Some(m) => 0 <= m < 0x1_0000_0000_0000,
            None => true,
        },
        match ids::ulid_millis_of(encode_utf8(text::trimmed(s@))) {
            Some(m) => 0 <= m < 0x1_0000_0000_0000,
            None => true,
        },
    ensures
        TimeInterpreter::Uuidv7.means(TimeRaw::Str(s), r) ==> match ids::uuid_millis(
            encode_utf8(text::trimmed(s@)),
        ) {
            Some(m) => m <= i64::MAX && TimeInterpreter::EpochMillis.means(
                TimeRaw::Int(m as i64),
                r,
            ),
            None => r is None,
        },
        TimeInterpreter::Ulid.means(TimeRaw::Str(s), r) ==> match ids::ulid_millis_of(
            encode_utf8(text::trimmed(s@)),
        ) {
            Some(m) => m <= i64::MAX && TimeInterpreter::EpochMillis.means(
                TimeRaw::Int(m as i64),
                r,
            ),
            None => r is None,
        },
{
}

/// Seconds, and nanoseconds beyond them, are a point in time: so many
/// nanoseconds from the epoch, before it as after it. There is none where 64
/// bits do not hold them.
pub proof fn law_seconds_and_nanoseconds_add_up(secs: i64, subsec: u32)
    requires
        subsec < 1_000_000_000,
    ensures
        ({
            let n = secs * 1_000_000_000 + subsec;
            match time::moment(Some((secs, subsec))) {
                Some(t) => t.nanos == n && i64::MIN <= n <= i64::MAX,
                None => n < i64::MIN || n > i64::MAX,
            }
        }),
        time::moment(None) is None,
{
}

// ---------------------------------------------------------------------
// Zones and policies
// ---------------------------------------------------------------------

/// The policy for texts that name no zone is of no matter to a text that names
/// one.
pub proof fn law_named_zones_need_no_policy(
    s: Seq<char>,
    p: NaiveZonePolicy,
    q: NaiveZonePolicy,
    found: Option<(i64, u32)>,
)
    requires
        zone::zoned(encode_utf8(text::trimmed(s))),
    ensures
        time::timestamp(s, p, found) == time::timestamp(s, q, found),
        !time::wild_offset(encode_utf8(s)) ==> time::timestamp(s, p, found) == time::moment(found),
{
}

/// A text that names no zone is refused, or read in UTC, or read in the zone
/// of a fixed offset: then it is as much earlier as that zone is east of UTC.
/// No zone is a day or more from UTC.
pub proof fn law_naive_texts_follow_the_policy(
    s: Seq<char>,
    seconds: i32,
    found: Option<(i64, u32)>,
)
    requires
        !zone::zoned(encode_utf8(text::trimmed(s))),
    ensures
        time::timestamp(s, NaiveZonePolicy::Refuse, found) is None,
        time::timestamp(s, NaiveZonePolicy::AssumeUtc, found) == time::timestamp(
            s,
            (NaiveZonePolicy::AssumeFixedOffset { seconds: 0 }),
            found,
        ),
        (seconds <= -86_400 || seconds >= 86_400) ==> time::timestamp(
            s,
            (NaiveZonePolicy::AssumeFixedOffset { seconds }),
            found,
        ) is None,
        time::timestamp(s, NaiveZonePolicy::AssumeUtc, found) matches Some(t) ==> {
            &&& time::timestamp(
                s,
                (NaiveZonePolicy::AssumeFixedOffset { seconds }),
                found,
            ) matches Some(u) ==> u.nanos == t.nanos - seconds * 1_000_000_000
            &&& -86_400 < seconds < 86_400 && 0 <= t.nanos - seconds * 1_000_000_000 <= i64::MAX
                && subseconds(text::trimmed(s)) < 1_000_000_000 ==> time::timestamp(
                s,
                (NaiveZonePolicy::AssumeFixedOffset { seconds }),
                found,
            ) is Some
        },
        !time::wild_offset(encode_utf8(s)) ==> time::timestamp(s, NaiveZonePolicy::Local, found)
            == time::moment(found),
{
}

/// The nanoseconds of a text without a zone, beyond its seconds.
pub open spec fn subseconds(t: Seq<char>) -> int {
    match time::naive_instant(t) {
        Some((_, subsec)) => subsec,
        None => 0,
    }
}

/// A text without a zone is read where it has one of the forms of a date and a
/// time, with `T`, a space or slashes, or is a date. What is a date and nothing
/// else is midnight of that day.
pub proof fn law_naive_forms_are_read(t: Seq<char>)
    ensures
        time::naive_date_time(t, "%Y-%m-%dT%H:%M:%S%.f"@) matches Some(p) ==> time::naive_instant(t)
            == Some((p.0 as int, p.1 as int)),
        time::naive_instant(t) is Some <==> {
            ||| time::naive_date_time(t, "%Y-%m-%dT%H:%M:%S%.f"@) is Some
            ||| time::naive_date_time(t, "%Y-%m-%dT%H:%M:%S"@) is Some
            ||| time::naive_date_time(t, "%Y-%m-%d %H:%M:%S%.f"@) is Some
            ||| time::naive_date_time(t, "%Y-%m-%d %H:%M:%S"@) is Some
            ||| time::naive_date_time(t, "%Y/%m/%d %H:%M:%S"@) is Some
            ||| time::naive_date_time(t, "%Y/%m/%dT%H:%M:%S"@) is Some
            ||| time::naive_date(t, "%Y-%m-%d"@) is Some
        },
        (time::naive_instant(t) is Some && time::naive_date_time(t, "%Y-%m-%dT%H:%M:%S%.f"@) is None
            && time::naive_date_time(t, "%Y-%m-%dT%H:%M:%S"@) is None && time::naive_date_time(
            t,
            "%Y-%m-%d %H:%M:%S%.f"@,
        ) is None && time::naive_date_time(t, "%Y-%m-%d %H:%M:%S"@) is None
            && time::naive_date_time(t, "%Y/%m/%d %H:%M:%S"@) is None && time::naive_date_time(
            t,
            "%Y/%m/%dT%H:%M:%S"@,
        ) is None) ==> ({
            let (secs, subsec) = time::naive_instant(t)->Some_0;
            subsec == 0 && secs % 86_400 == 0 && secs / 86_400 + 719_163 == time::naive_date(
                t,
                "%Y-%m-%d"@,
            )->Some_0
        }),
{
    reveal_with_fuel(time::first_fit, 8);
    let f = time::naive_formats();
    assert(f.len() == 6);
    assert(f[0] == "%Y-%m-%dT%H:%M:%S%.f"@);
    assert(f[1] == "%Y-%m-%dT%H:%M:%S"@);
    assert(f[2] == "%Y-%m-%d %H:%M:%S%.f"@);
    assert(f[3] == "%Y-%m-%d %H:%M:%S"@);
    assert(f[4] == "%Y/%m/%d %H:%M:%S"@);
    assert(f[5] == "%Y/%m/%dT%H:%M:%S"@);
}

// ---------------------------------------------------------------------
// Offsets of a day and more
// ---------------------------------------------------------------------

/// A sign, two digits of hours and two of minutes, at the end of a text, with
/// a colon between them or without.
pub open spec fn ends_in_offset(b: Seq<u8>, rest: Seq<u8>, hours: int, colon: bool) -> bool {
    let n = rest.len() as int;
    &&& b.len() == n + (if colon {
        6int
    } else {
        5int
    })
    &&& b.take(n) == rest
    &&& b[n] == 0x2b || b[n] == 0x2d
    &&& 0x30 <= b[n + 1] <= 0x39
    &&& 0x30 <= b[n + 2] <= 0x39
    &&& hours == (b[n + 1] - 0x30) * 10 + (b[n + 2] - 0x30)
    &&& colon ==> b[n + 3] == 0x3a
    &&& 0x30 <= b[b.len() - 2] <= 0x35
    &&& 0x30 <= b[b.len() - 1] <= 0x39
}

/// The offset at the end of a text is one of a day or more just where its
/// hours are twenty-four or more; then no time is read from a text that starts
/// as a date or a time does.
pub proof fn law_no_zone_is_a_day_away(
    s: Seq<char>,
    rest: Seq<u8>,
    hours: int,
    colon: bool,
    policy: NaiveZonePolicy,
    found: Option<(i64, u32)>,
)
    requires
        ends_in_offset(encode_utf8(s), rest, hours, colon),
        time::opens(encode_utf8(s)),
    ensures
        time::wild_offset(encode_utf8(s)) <==> hours >= 24,
        hours >= 24 && zone::zoned(encode_utf8(text::trimmed(s))) ==> time::timestamp(
            s,
            policy,
            found,
        ) is None,
{
    let b = encode_utf8(s);
    let n = rest.len() as int;
    if !colon && b.len() >= 6 {
        assert(!(0x30 <= b[n] <= 0x39));
    }
    if !colon {
        assert(b[b.len() - 5] == b[n]);
    }
}

} // verus!
