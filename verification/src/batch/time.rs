//! How raw values become points in time.
use crate::batch::ids;
use crate::batch::zone;
use crate::text;
use vstd::prelude::*;
use vstd::string::*;
use vstd::utf8::*;

verus! {

/// A point in time: nanoseconds since the Unix epoch.
#[derive(Clone, Copy, Debug, PartialEq, Eq, PartialOrd, Ord, Hash, Structural)]
pub struct UnixTime {
    pub nanos: i128,
}

/// Strategy for interpreting an extracted raw value as a point in time. The
/// *extraction* (where the raw value comes from) is per-source, but the
/// *interpretation* (how the raw value becomes a timestamp) is data-shaped and
/// reusable across backends.
#[derive(Clone, Copy, Debug, PartialEq, Eq, Structural)]
pub enum TimeInterpreter {
    EpochSeconds,
    EpochMillis,
    EpochMicros,
    EpochNanos,
    /// Permissive string-timestamp parser: ISO 8601 / RFC 3339, RFC 2822, US-
    /// and EU-style date/time, common log formats, numeric epoch as string,
    /// and others. The attached policy governs what to do with strings that
    /// lack explicit zone information.
    StringTimestamp(NaiveZonePolicy),
    /// The 48-bit epoch-millis timestamp embedded in the first 12 hex chars of
    /// a UUIDv7 (RFC 9562), hyphenated or not, case-insensitive.
    Uuidv7,
    /// The 48-bit epoch-millis timestamp in the first 10 Crockford Base32
    /// characters of a ULID, case-insensitive.
    Ulid,
}

/// Per-field policy for interpreting timestamp strings that arrive without
/// explicit zone information.
#[derive(Clone, Copy, Debug, PartialEq, Eq, Structural)]
pub enum NaiveZonePolicy {
    /// Reject zoneless timestamps. Safest default; the operator must
    /// consciously opt out.
    Refuse,
    /// Treat zoneless timestamps as UTC.
    AssumeUtc,
    /// Treat zoneless timestamps as having the given fixed offset, in seconds
    /// east of UTC.
    AssumeFixedOffset { seconds: i32 },
    /// Use the local timezone of the process.
    Local,
}

impl Default for NaiveZonePolicy {
    fn default() -> (p: NaiveZonePolicy)
        ensures
            p == NaiveZonePolicy::Refuse,
    {
        NaiveZonePolicy::Refuse
    }
}

/// Tagged raw value. Source adapters lift their own value types to one of
/// these variants.
#[derive(Clone, Copy, Debug)]
pub enum TimeRaw<'a> {
    Int(i64),
    Str(&'a str),
}

// ---------------------------------------------------------------------
// Seconds and nanoseconds
// ---------------------------------------------------------------------

pub open spec fn fits(n: int) -> bool {
    i64::MIN <= n <= i64::MAX
}

/// The nanoseconds of a number of seconds and nanoseconds beyond them, where
/// 64 bits hold them. Before the epoch they are counted back from the next
/// second.
pub open spec fn nanos_of(secs: int, subsec: int) -> Option<int> {
    let s = if secs < 0 {
        secs + 1
    } else {
        secs
    };
    let n = if secs < 0 {
        subsec - 1_000_000_000
    } else {
        subsec
    };
    if fits(s * 1_000_000_000) && fits(s * 1_000_000_000 + n) {
        Some(s * 1_000_000_000 + n)
    } else {
        None
    }
}

/// The point in time of what a parser found, where 64 bits of nanoseconds
/// hold it.
pub open spec fn moment(parsed: Option<(i64, u32)>) -> Option<UnixTime> {
    match parsed {
        Some((secs, subsec)) => match nanos_of(secs as int, subsec as int) {
            Some(n) => Some(UnixTime { nanos: n as i128 }),
            None => None,
        },
        None => None,
    }
}

fn timestamp_nanos(secs: i128, subsec: u32) -> (r: Option<UnixTime>)
    requires
        -0x2_0000_0000_0000_0000 <= secs <= 0x2_0000_0000_0000_0000,
    ensures
        match r {
            Some(t) => nanos_of(secs as int, subsec as int) == Some(t.nanos as int),
            None => nanos_of(secs as int, subsec as int) is None,
        },
{
    let low: i128 = i64::MIN as i128;
    let high: i128 = i64::MAX as i128;
    let (s, n): (i128, i128) = if secs < 0 {
        (secs + 1, subsec as i128 - 1_000_000_000)
    } else {
        (secs, subsec as i128)
    };
    let whole: i128 = s * 1_000_000_000;
    if whole < low || whole > high || whole + n < low || whole + n > high {
        return None;
    }
    Some(UnixTime { nanos: whole + n })
}

/// The point in time of what a parser found.
pub fn moment_of(parsed: Option<(i64, u32)>) -> (r: Option<UnixTime>)
    ensures
        r == moment(parsed),
{
    match parsed {
        Some((secs, subsec)) => timestamp_nanos(secs as i128, subsec),
        None => None,
    }
}

// ---------------------------------------------------------------------
// Naive timestamps
// ---------------------------------------------------------------------

/// What `chrono::NaiveDateTime::parse_from_str` makes of a text and a format:
/// the seconds since the epoch, were it in UTC, and the nanoseconds beyond
/// them.
pub uninterp spec fn naive_date_time(text: Seq<char>, format: Seq<char>) -> Option<(i64, u32)>;

/// What `chrono::NaiveDate::parse_from_str` makes of a text and a format: the
/// days since the day before the first of January of the year one.
pub uninterp spec fn naive_date(text: Seq<char>, format: Seq<char>) -> Option<i32>;

/// `chrono::NaiveDateTime::parse_from_str`, whose result depends on the text
/// and the format alone. A date and time is handed on as its seconds since the
/// epoch in UTC, and the nanoseconds beyond them.
#[verifier::external_body]
fn parse_date_time(s: &str, format: &str) -> (r: Option<(i64, u32)>)
    ensures
        r == naive_date_time(s@, format@),
{
    match chrono::NaiveDateTime::parse_from_str(s, format) {
        Ok(t) => Some((t.and_utc().timestamp(), t.and_utc().timestamp_subsec_nanos())),
        Err(_) => None,
    }
}

/// `chrono::NaiveDate::parse_from_str`, whose result depends on the text and
/// the format alone. A date is handed on as its number of days in the common
/// era.
#[verifier::external_body]
fn parse_date(s: &str, format: &str) -> (r: Option<i32>)
    ensures
        r == naive_date(s@, format@),
{
    match chrono::NaiveDate::parse_from_str(s, format) {
        Ok(d) => Some(chrono::Datelike::num_days_from_ce(&d)),
        Err(_) => None,
    }
}

/// The formats that are tried, in turn.
pub open spec fn naive_formats() -> Seq<Seq<char>> {
    seq![
        "%Y-%m-%dT%H:%M:%S%.f"@,
        "%Y-%m-%dT%H:%M:%S"@,
        "%Y-%m-%d %H:%M:%S%.f"@,
        "%Y-%m-%d %H:%M:%S"@,
        "%Y/%m/%d %H:%M:%S"@,
        "%Y/%m/%dT%H:%M:%S"@,
    ]
}

/// The first of the formats from `k` on that fits.
pub open spec fn first_fit(t: Seq<char>, k: int) -> Option<(i64, u32)>
    decreases naive_formats().len() - k,
{
    if 0 <= k < naive_formats().len() {
        match naive_date_time(t, naive_formats()[k]) {
            Some(p) => Some(p),
            None => first_fit(t, k + 1),
        }
    } else {
        None
    }
}

/// The days from the start of the common era to the epoch.
pub const EPOCH_DAY: i64 = 719_163;

/// The seconds and nanoseconds of a naive timestamp: of the first format that
/// fits, or of midnight where it is a date.
pub open spec fn naive_instant(t: Seq<char>) -> Option<(int, int)> {
    match first_fit(t, 0) {
        Some((secs, subsec)) => Some((secs as int, subsec as int)),
        None => match naive_date(t, "%Y-%m-%d"@) {
            Some(day) => Some(((day - EPOCH_DAY) * 86_400, 0)),
            None => None,
        },
    }
}

/// A naive timestamp in a zone that is the given seconds east of UTC, less
/// than a day.
pub open spec fn shifted(t: Seq<char>, offset: int) -> Option<UnixTime> {
    match naive_instant(t) {
        Some((secs, subsec)) => if -86_400 < offset < 86_400 {
            match nanos_of(secs - offset, subsec) {
                Some(n) => Some(UnixTime { nanos: n as i128 }),
                None => None,
            }
        } else {
            None
        },
        None => None,
    }
}

fn find_fit(t: &str) -> (r: Option<(i64, u32)>)
    ensures
        r == first_fit(t@, 0),
{
    let formats: [&str; 6] = [
        "%Y-%m-%dT%H:%M:%S%.f",
        "%Y-%m-%dT%H:%M:%S",
        "%Y-%m-%d %H:%M:%S%.f",
        "%Y-%m-%d %H:%M:%S",
        "%Y/%m/%d %H:%M:%S",
        "%Y/%m/%dT%H:%M:%S",
    ];
    let mut k: usize = 0;
    while k < 6
        invariant
            k <= 6,
            formats@.len() == 6,
            forall|i: int| 0 <= i < 6 ==> (#[trigger] formats@[i])@ == naive_formats()[i],
            first_fit(t@, 0) == first_fit(t@, k as int),
        decreases 6 - k,
    {
        let format = formats[k];
        assert(format@ == naive_formats()[k as int]);
        match parse_date_time(t, format) {
            Some(p) => {
                return Some(p);
            },
            None => {},
        }
        k += 1;
    }
    None
}

/// Parses a naive timestamp and applies the given fixed UTC offset, in seconds
/// east of UTC.
pub fn parse_naive_with_offset(s: &str, offset_secs: i32) -> (r: Option<UnixTime>)
    ensures
        r == shifted(text::trimmed(s@), offset_secs as int),
{
    let t = text::trim(s);
    let (secs, subsec): (i64, u32) = match find_fit(t.as_str()) {
        Some(p) => p,
        None => match parse_date(t.as_str(), "%Y-%m-%d") {
            Some(day) => ((day as i64 - EPOCH_DAY) * 86_400, 0),
            None => {
                return None;
            },
        },
    };
    if offset_secs <= -86_400 || offset_secs >= 86_400 {
        return None;
    }
    timestamp_nanos(secs as i128 - offset_secs as i128, subsec)
}

// ---------------------------------------------------------------------
// Timestamps of many formats
// ---------------------------------------------------------------------

/// White space, or a byte of a character beyond ASCII, which may be such.
pub open spec fn spacing(b: u8) -> bool {
    0x09 <= b <= 0x0d || b == 0x20 || b >= 0x80
}

/// A word of three to nine letters, and white space behind it.
pub open spec fn word_first(b: Seq<u8>) -> bool {
    exists|k: int| 3 <= k <= 9 && #[trigger] word_of(b, k)
}

pub open spec fn word_of(b: Seq<u8>, k: int) -> bool {
    &&& k < b.len()
    &&& forall|i: int| 0 <= i < k ==> zone::letter(#[trigger] b[i])
    &&& spacing(b[k])
}

/// A date or a time at the start: the name of a month, four digits and a
/// hyphen, or one or two digits and a colon.
pub open spec fn opens(b: Seq<u8>) -> bool {
    ||| word_first(b)
    ||| b.len() >= 2 && zone::digit(b[0]) && b[1] == 0x3a
    ||| b.len() >= 3 && zone::digit(b[0]) && zone::digit(b[1]) && b[2] == 0x3a
    ||| b.len() >= 5 && zone::digit(b[0]) && zone::digit(b[1]) && zone::digit(b[2]) && zone::digit(
        b[3],
    ) && b[4] == 0x2d
}

/// A date or a time with an offset of a day or more at the end: a sign, two
/// digits of hours, twenty-four or more, and two of minutes, with a colon
/// between them or without, and one character more at most.
pub open spec fn wild_offset(b: Seq<u8>) -> bool {
    opens(b) && (b.len() >= 5 && wild_from(b, b.len() - 5) || b.len() >= 6 && wild_from(
        b,
        b.len() - 6,
    ))
}

pub open spec fn wild_from(b: Seq<u8>, i: int) -> bool {
    let m = if b[i + 3] == 0x3a {
        i + 4
    } else {
        i + 3
    };
    &&& b[i] == 0x2b || b[i] == 0x2d
    &&& zone::digit(b[i + 1])
    &&& zone::digit(b[i + 2])
    &&& (b[i + 1] - 0x30) * 10 + (b[i + 2] - 0x30) >= 24
    &&& m + 1 < b.len()
    &&& 0x30 <= b[m] <= 0x35
    &&& zone::digit(b[m + 1])
}

fn is_wild_from(b: &[u8], i: usize) -> (r: bool)
    requires
        i + 5 <= b@.len(),
    ensures
        r == wild_from(b@, i as int),
{
    let n: usize = b.len();
    let m: usize = if b[i + 3] == 0x3a {
        i + 4
    } else {
        i + 3
    };
    if b[i] != 0x2b && b[i] != 0x2d {
        return false;
    }
    let h: u8 = b[i + 1];
    let l: u8 = b[i + 2];
    if h < 0x30 || h > 0x39 || l < 0x30 || l > 0x39 {
        return false;
    }
    if (h - 0x30) * 10 + (l - 0x30) < 24 {
        return false;
    }
    m < n - 1 && 0x30 <= b[m] && b[m] <= 0x35 && 0x30 <= b[m + 1] && b[m + 1] <= 0x39
}

fn has_word_first(b: &[u8]) -> (r: bool)
    ensures
        r == word_first(b@),
{
    let n: usize = b.len();
    let mut k: usize = 0;
    while k < n && k < 10 && zone::is_letter(b[k])
        invariant
            k <= n == b@.len(),
            k <= 10,
            forall|i: int| 0 <= i < k ==> zone::letter(#[trigger] b@[i]),
        decreases n - k,
    {
        k += 1;
    }
    let r: bool = 3 <= k && k <= 9 && k < n && ((0x09 <= b[k] && b[k] <= 0x0d) || b[k] == 0x20
        || b[k] >= 0x80);
    proof {
        if r {
            assert(word_of(b@, k as int));
        } else {
            assert forall|j: int| 3 <= j <= 9 implies !#[trigger] word_of(b@, j) by {
                if j < k {
                    assert(zone::letter(b@[j]));
                } else if j > k && word_of(b@, j) {
                    assert(zone::letter(b@[k as int]));
                }
            }
        }
    }
    r
}

fn does_open(b: &[u8]) -> (r: bool)
    ensures
        r == opens(b@),
{
    let n: usize = b.len();
    has_word_first(b) || (n >= 2 && zone::is_digit(b[0]) && b[1] == 0x3a) || (n >= 3
        && zone::is_digit(b[0]) && zone::is_digit(b[1]) && b[2] == 0x3a) || (n >= 5
        && zone::is_digit(b[0]) && zone::is_digit(b[1]) && zone::is_digit(b[2]) && zone::is_digit(
        b[3],
    ) && b[4] == 0x2d)
}

fn has_wild_offset(s: &str) -> (r: bool)
    ensures
        r == wild_offset(encode_utf8(s@)),
{
    let b = s.as_bytes();
    let n: usize = b.len();
    does_open(b) && ((n >= 5 && is_wild_from(b, n - 5)) || (n >= 6 && is_wild_from(b, n - 6)))
}

/// What `dateparser::parse` makes of a text, where `env` stands for the
/// machine's time zone and the present time: the seconds since the epoch, and
/// the nanoseconds beyond them.
pub uninterp spec fn any_format(text: Seq<char>, env: int) -> Option<(i64, u32)>;

/// Ten to nineteen digits, and nothing else.
pub open spec fn epoch_digits(b: Seq<u8>) -> bool {
    10 <= b.len() <= 19 && forall|i: int| 0 <= i < b.len() ==> zone::digit(#[trigger] b[i])
}

/// The number that decimal digits spell.
pub open spec fn decimal(b: Seq<u8>) -> int
    decreases b.len(),
{
    if b.len() == 0 {
        0
    } else {
        decimal(b.drop_last()) * 10 + (b.last() - 0x30)
    }
}

/// The point in time of an epoch value: seconds where it has ten digits,
/// milliseconds where it has thirteen, nanoseconds where it has nineteen. What
/// has another number of digits, or does not fit a signed 64-bit number, is
/// none.
pub open spec fn epoch_value(b: Seq<u8>) -> Option<(i64, u32)> {
    let v = decimal(b);
    if v > i64::MAX {
        None
    } else if b.len() == 10 {
        Some((v as i64, 0u32))
    } else if b.len() == 13 {
        Some(((v / 1000) as i64, (v % 1000 * 1_000_000) as u32))
    } else if b.len() == 19 {
        Some(((v / 1_000_000_000) as i64, (v % 1_000_000_000) as u32))
    } else {
        None
    }
}

/// A date of four, two and two digits at the start.
pub open spec fn dated(b: Seq<u8>) -> bool {
    &&& b.len() > 16
    &&& zone::digit(b[0]) && zone::digit(b[1]) && zone::digit(b[2]) && zone::digit(b[3])
    &&& b[4] == 0x2d
    &&& zone::digit(b[5]) && zone::digit(b[6])
    &&& b[7] == 0x2d
    &&& zone::digit(b[8]) && zone::digit(b[9])
}

/// A day at the start, and a name behind it.
pub open spec fn day_first(b: Seq<u8>) -> bool {
    ||| b.len() > 2 && zone::digit(b[0]) && b[1] == 0x20 && zone::letter(b[2])
    ||| b.len() > 3 && zone::digit(b[0]) && zone::digit(b[1]) && b[2] == 0x20 && zone::letter(b[3])
}

/// A text that says all there is to say of a point in time, if it says
/// anything: it starts with the name of a weekday and a comma, as RFC 2822 has
/// it; or with a date, a `T` and a time, as RFC 3339 has it; or it ends in a
/// zone, and starts with a date, a space and a time, with the name of a month,
/// or with a day and a name.
pub open spec fn complete(b: Seq<u8>) -> bool {
    ||| b.len() >= 4 && zone::letter(b[0]) && zone::letter(b[1]) && zone::letter(b[2]) && b[3]
        == 0x2c
    ||| dated(b) && (b[10] == 0x54 || b[10] == 0x74)
    ||| dated(b) && b[10] == 0x20 && zone::digit(b[11]) && zone::digit(b[12]) && b[13] == 0x3a
        && zone::digit(b[14]) && zone::digit(b[15]) && zone::zoned(b)
    ||| b.len() > 0 && zone::letter(b[0]) && zone::zoned(b)
    ||| day_first(b) && zone::zoned(b)
}

/// `dateparser::parse`, which tries many formats. A point in time is handed on
/// as its seconds since the epoch, and the nanoseconds beyond them, which in a
/// leap second are up to two thousand million. The result depends on the text,
/// on the machine's time zone where the text names none, and on the present
/// time where it gives only a part of a date; of a complete text it depends on
/// the text alone. Digits alone are an epoch value. An offset of a day or more
/// makes the call panic: such texts are left out.
#[verifier::external_body]
fn parse_any(s: &str) -> (r: Option<(i64, u32)>)
    requires
        !wild_offset(encode_utf8(s@)),
    ensures
        r matches Some(p) ==> p.1 < 2_000_000_000,
        exists|env: int| r == #[trigger] any_format(s@, env),
        complete(encode_utf8(s@)) ==> r == any_format(s@, 0),
        epoch_digits(encode_utf8(s@)) ==> r == epoch_value(encode_utf8(s@)),
{
    match dateparser::parse(s) {
        Ok(t) => Some((t.timestamp(), t.timestamp_subsec_nanos())),
        Err(_) => None,
    }
}

/// Whether the many formats are tried: the text names its zone, or is to be
/// read in the local one.
pub open spec fn tries_all(s: Seq<char>, policy: NaiveZonePolicy) -> bool {
    zone::zoned(encode_utf8(text::trimmed(s))) || policy == NaiveZonePolicy::Local
}

/// The point in time of a text, where `found` is what the many formats made of
/// it. An offset of a day or more is none.
pub open spec fn timestamp(
    s: Seq<char>,
    policy: NaiveZonePolicy,
    found: Option<(i64, u32)>,
) -> Option<UnixTime> {
    if tries_all(s, policy) {
        if wild_offset(encode_utf8(s)) {
            None
        } else {
            moment(found)
        }
    } else {
        match policy {
            NaiveZonePolicy::AssumeUtc => shifted(text::trimmed(s), 0),
            NaiveZonePolicy::AssumeFixedOffset { seconds } => shifted(
                text::trimmed(s),
                seconds as int,
            ),
            _ => None,
        }
    }
}

/// The point in time of a text, where `found` is what the many formats made of
/// it. Strings that lack an explicit timezone marker are routed through the
/// policy.
pub fn timestamp_from(s: &str, policy: &NaiveZonePolicy, found: Option<(i64, u32)>) -> (r: Option<
    UnixTime,
>)
    ensures
        r == timestamp(s@, *policy, found),
{
    if zone::has_explicit_zone(s) {
        return if has_wild_offset(s) {
            None
        } else {
            moment_of(found)
        };
    }
    match *policy {
        NaiveZonePolicy::Refuse => None,
        NaiveZonePolicy::AssumeUtc => parse_naive_with_offset(s, 0),
        NaiveZonePolicy::AssumeFixedOffset { seconds } => parse_naive_with_offset(s, seconds),
        NaiveZonePolicy::Local => if has_wild_offset(s) {
            None
        } else {
            moment_of(found)
        },
    }
}

/// `r` is what a text means: by what the many formats make of it, in some
/// surroundings; in any, where the text is complete; and by its value, where
/// it is one.
pub open spec fn reads(s: Seq<char>, policy: NaiveZonePolicy, r: Option<UnixTime>) -> bool {
    &&& exists|env: int| r == timestamp(s, policy, #[trigger] any_format(s, env))
    &&& complete(encode_utf8(s)) ==> r == timestamp(s, policy, any_format(s, 0))
    &&& epoch_digits(encode_utf8(s)) ==> r == timestamp(s, policy, epoch_value(encode_utf8(s)))
}

/// Permissive string-timestamp parser.
pub fn parse_timestamp_str(s: &str, policy: &NaiveZonePolicy) -> (r: Option<UnixTime>)
    ensures
        reads(s@, *policy, r),
{
    let wanted: bool = zone::has_explicit_zone(s) || *policy == NaiveZonePolicy::Local;
    let found: Option<(i64, u32)> = if wanted && !has_wild_offset(s) {
        parse_any(s)
    } else {
        None
    };
    let r = timestamp_from(s, policy, found);
    proof {
        if !(wanted && !wild_offset(encode_utf8(s@))) {
            assert(r == timestamp(s@, *policy, any_format(s@, 0)));
        }
    }
    r
}

/// The time that is embedded in a UUIDv7.
pub fn parse_uuidv7_timestamp(s: &str) -> (r: Option<UnixTime>)
    ensures
        match ids::uuid_millis(encode_utf8(text::trimmed(s@))) {
            Some(m) => r == Some(UnixTime { nanos: (m * 1_000_000) as i128 }),
            None => r is None,
        },
{
    let t = text::trim(s);
    match ids::uuidv7_millis(t.as_str().as_bytes()) {
        Some(m) => Some(UnixTime { nanos: m as i128 * 1_000_000 }),
        None => None,
    }
}

/// The time that is embedded in a ULID.
pub fn parse_ulid_timestamp(s: &str) -> (r: Option<UnixTime>)
    ensures
        match ids::ulid_millis_of(encode_utf8(text::trimmed(s@))) {
            Some(m) => r == Some(UnixTime { nanos: (m * 1_000_000) as i128 }),
            None => r is None,
        },
{
    let t = text::trim(s);
    match ids::ulid_millis(t.as_str().as_bytes()) {
        Some(m) => Some(UnixTime { nanos: m as i128 * 1_000_000 }),
        None => None,
    }
}

/// So many units of the given nanoseconds after the epoch; nothing before it.
pub open spec fn units(n: int, unit: int) -> Option<UnixTime> {
    if n >= 0 {
        Some(UnixTime { nanos: (n * unit) as i128 })
    } else {
        None
    }
}

pub open spec fn of_millis(m: Option<int>) -> Option<UnixTime> {
    match m {
        Some(m) => Some(UnixTime { nanos: (m * 1_000_000) as i128 }),
        None => None,
    }
}

impl TimeInterpreter {
    /// `r` is what the raw value means.
    pub open spec fn means(self, raw: TimeRaw<'_>, r: Option<UnixTime>) -> bool {
        match (self, raw) {
            (TimeInterpreter::EpochSeconds, TimeRaw::Int(n)) => r == units(
                n as int,
                1_000_000_000,
            ),
            (TimeInterpreter::EpochMillis, TimeRaw::Int(n)) => r == units(n as int, 1_000_000),
            (TimeInterpreter::EpochMicros, TimeRaw::Int(n)) => r == units(n as int, 1_000),
            (TimeInterpreter::EpochNanos, TimeRaw::Int(n)) => r == units(n as int, 1),
            (TimeInterpreter::StringTimestamp(policy), TimeRaw::Str(s)) => reads(s@, policy, r),
            (TimeInterpreter::Uuidv7, TimeRaw::Str(s)) => r == of_millis(
                ids::uuid_millis(encode_utf8(text::trimmed(s@))),
            ),
            (TimeInterpreter::Ulid, TimeRaw::Str(s)) => r == of_millis(
                ids::ulid_millis_of(encode_utf8(text::trimmed(s@))),
            ),
            _ => r is None,
        }
    }

    pub fn interpret(&self, raw: TimeRaw<'_>) -> (r: Option<UnixTime>)
        ensures
            self.means(raw, r),
    {
        match (*self, raw) {
            (TimeInterpreter::EpochSeconds, TimeRaw::Int(n)) => after_epoch(n, 1_000_000_000),
            (TimeInterpreter::EpochMillis, TimeRaw::Int(n)) => after_epoch(n, 1_000_000),
            (TimeInterpreter::EpochMicros, TimeRaw::Int(n)) => after_epoch(n, 1_000),
            (TimeInterpreter::EpochNanos, TimeRaw::Int(n)) => after_epoch(n, 1),
            (TimeInterpreter::StringTimestamp(policy), TimeRaw::Str(s)) => parse_timestamp_str(
                s,
                &policy,
            ),
            (TimeInterpreter::Uuidv7, TimeRaw::Str(s)) => parse_uuidv7_timestamp(s),
            (TimeInterpreter::Ulid, TimeRaw::Str(s)) => parse_ulid_timestamp(s),
            _ => None,
        }
    }

    pub open spec fn label(self) -> Seq<char> {
        match self {
            TimeInterpreter::EpochSeconds => "epoch-seconds"@,
            TimeInterpreter::EpochMillis => "epoch-millis"@,
            TimeInterpreter::EpochMicros => "epoch-micros"@,
            TimeInterpreter::EpochNanos => "epoch-nanos"@,
            TimeInterpreter::StringTimestamp(_) => "string-timestamp"@,
            TimeInterpreter::Uuidv7 => "uuid-v7"@,
            TimeInterpreter::Ulid => "ulid"@,
        }
    }

    pub fn describe(&self) -> (r: &'static str)
        ensures
            r@ == self.label(),
    {
        match self {
            TimeInterpreter::EpochSeconds => "epoch-seconds",
            TimeInterpreter::EpochMillis => "epoch-millis",
            TimeInterpreter::EpochMicros => "epoch-micros",
            TimeInterpreter::EpochNanos => "epoch-nanos",
            TimeInterpreter::StringTimestamp(_) => "string-timestamp",
            TimeInterpreter::Uuidv7 => "uuid-v7",
            TimeInterpreter::Ulid => "ulid",
        }
    }
}

fn after_epoch(n: i64, unit: i64) -> (r: Option<UnixTime>)
    requires
        0 < unit <= 1_000_000_000,
    ensures
        r == units(n as int, unit as int),
{
    if n >= 0 {
        assert(0 <= n * unit <= i64::MAX * 1_000_000_000) by (nonlinear_arith)
            requires
                0 <= n <= i64::MAX,
                0 < unit <= 1_000_000_000,
        ;
        Some(UnixTime { nanos: n as i128 * unit as i128 })
    } else {
        None
    }
}

// ---------------------------------------------------------------------
// Windows
// ---------------------------------------------------------------------

/// Time predicate applied during a batch run. `start` is inclusive, `end` is
/// exclusive. Either bound may be None to indicate no limit.
#[derive(Clone, Copy, Debug, PartialEq, Eq, Structural)]
pub struct TimePredicate {
    pub start: Option<UnixTime>,
    pub end: Option<UnixTime>,
}

impl Default for TimePredicate {
    fn default() -> (p: TimePredicate)
        ensures
            p.start is None && p.end is None,
    {
        TimePredicate { start: None, end: None }
    }
}

/// A number with its sign, in decimal.
pub open spec fn shown_integer(n: int) -> Seq<char> {
    if n < 0 {
        seq!['-'] + text::numeral(-n, 10)
    } else {
        text::numeral(n, 10)
    }
}

/// A point in time, as its seconds and the nanoseconds beyond them.
pub open spec fn shown_time(t: UnixTime) -> Seq<char> {
    "SystemTime { tv_sec: "@ + shown_integer(t.nanos as int / 1_000_000_000) + ", tv_nsec: "@
        + text::numeral(t.nanos as int % 1_000_000_000, 10) + " }"@
}

impl TimePredicate {
    pub open spec fn holds(self, t: UnixTime) -> bool {
        &&& self.start matches Some(s) ==> s.nanos <= t.nanos
        &&& self.end matches Some(e) ==> t.nanos < e.nanos
    }

    pub fn contains(&self, t: UnixTime) -> (b: bool)
        ensures
            b == self.holds(t),
    {
        if let Some(s) = self.start {
            if t.nanos < s.nanos {
                return false;
            }
        }
        if let Some(e) = self.end {
            if t.nanos >= e.nanos {
                return false;
            }
        }
        true
    }

    pub open spec fn description(self) -> Seq<char> {
        match (self.start, self.end) {
            (None, None) => "no time filter"@,
            (Some(s), None) => "start="@ + shown_time(s),
            (None, Some(e)) => "end="@ + shown_time(e),
            (Some(s), Some(e)) => "start="@ + shown_time(s) + " end="@ + shown_time(e),
        }
    }

    pub fn describe(&self) -> (r: String)
        requires
            self.start matches Some(s) ==> s.representable(),
            self.end matches Some(e) ==> e.representable(),
        ensures
            r@ == self.description(),
    {
        let mut out: String = String::new();
        match (self.start, self.end) {
            (None, None) => {
                out.append("no time filter");
            },
            (Some(s), None) => {
                out.append("start=");
                s.push_to(&mut out);
            },
            (None, Some(e)) => {
                out.append("end=");
                e.push_to(&mut out);
            },
            (Some(s), Some(e)) => {
                out.append("start=");
                s.push_to(&mut out);
                out.append(" end=");
                e.push_to(&mut out);
            },
        }
        assert(out@ =~= self.description());
        out
    }
}

impl UnixTime {
    /// The seconds fit in 64 bits.
    pub open spec fn representable(self) -> bool {
        i64::MIN <= self.nanos as int / 1_000_000_000 <= i64::MAX
    }

    fn push_to(&self, out: &mut String)
        requires
            self.representable(),
        ensures
            final(out)@ == old(out)@ + shown_time(*self),
    {
        let ghost start = out@;
        let n: i128 = self.nanos;
        let mut secs: i128 = n / 1_000_000_000;
        let mut subsec: i128 = n % 1_000_000_000;
        if subsec < 0 {
            secs -= 1;
            subsec += 1_000_000_000;
        }
        assert(secs == n as int / 1_000_000_000 && subsec == n as int % 1_000_000_000);
        out.append("SystemTime { tv_sec: ");
        if secs < 0 {
            out.push('-');
            text::push_decimal(out, (-secs) as u64);
        } else {
            text::push_decimal(out, secs as u64);
        }
        out.append(", tv_nsec: ");
        text::push_decimal(out, subsec as u64);
        out.append(" }");
        assert(out@ =~= start + shown_time(*self));
    }
}

/// Windows that meet at a point share no time, and together they are the
/// window from the start of the one to the end of the other.
pub proof fn law_windows_partition(
    start: Option<UnixTime>,
    middle: UnixTime,
    end: Option<UnixTime>,
    t: UnixTime,
)
    requires
        start matches Some(s) ==> s.nanos <= middle.nanos,
        end matches Some(e) ==> middle.nanos <= e.nanos,
    ensures
        ({
            let first = TimePredicate { start, end: Some(middle) };
            let second = TimePredicate { start: Some(middle), end };
            let both = TimePredicate { start, end };
            &&& !(first.holds(t) && second.holds(t))
            &&& both.holds(t) == (first.holds(t) || second.holds(t))
        }),
{
}

} // verus!
