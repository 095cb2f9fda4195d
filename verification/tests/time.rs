use shapez::batch::time::{
    parse_timestamp_str, parse_ulid_timestamp, parse_uuidv7_timestamp, UnixTime,
};
use shapez::batch::zone::has_explicit_zone;
use shapez::{NaiveZonePolicy, TimeInterpreter, TimePredicate, TimeRaw};

fn t(secs: u64) -> UnixTime {
    UnixTime { nanos: secs as i128 * 1_000_000_000 }
}

fn ms(millis: u64) -> UnixTime {
    UnixTime { nanos: millis as i128 * 1_000_000 }
}

fn refuse() -> NaiveZonePolicy { NaiveZonePolicy::Refuse }
fn utc() -> NaiveZonePolicy { NaiveZonePolicy::AssumeUtc }
fn fixed(secs: i32) -> NaiveZonePolicy {
    NaiveZonePolicy::AssumeFixedOffset { seconds: secs }
}
fn local() -> NaiveZonePolicy { NaiveZonePolicy::Local }

#[test]
fn rfc3339_z_is_zoned_regardless_of_policy() {
    let parsed = parse_timestamp_str("2024-01-15T10:30:00Z", &refuse()).unwrap();
    assert_eq!(parsed, t(1_705_314_600));
    // The Z makes the zone explicit, so even Refuse accepts it.
}

#[test]
fn offset_normalizes_to_utc_under_any_policy() {
    let with_offset = parse_timestamp_str("2024-01-15T15:30:00+05:00", &refuse()).unwrap();
    let utc = parse_timestamp_str("2024-01-15T10:30:00Z", &refuse()).unwrap();
    assert_eq!(with_offset, utc);
}

#[test]
fn rfc2822_with_gmt_is_zoned() {
    let parsed = parse_timestamp_str("Mon, 15 Jan 2024 10:30:00 GMT", &refuse()).unwrap();
    assert_eq!(parsed, t(1_705_314_600));
}

#[test]
fn numeric_epoch_as_string_is_implicitly_zoned() {
    let parsed = parse_timestamp_str("1705314600", &refuse()).unwrap();
    assert_eq!(parsed, t(1_705_314_600));
}

#[test]
fn fractional_seconds_round_trip() {
    let plain = parse_timestamp_str("2024-01-15T10:30:00Z", &refuse()).unwrap();
    let frac = parse_timestamp_str("2024-01-15T10:30:00.500Z", &refuse()).unwrap();
    assert_eq!(frac, UnixTime { nanos: plain.nanos + 500_000_000 });
}

#[test]
fn rejects_obvious_garbage() {
    for p in [refuse(), utc(), local()] {
        assert!(parse_timestamp_str("nope", &p).is_none());
        assert!(parse_timestamp_str("", &p).is_none());
        assert!(parse_timestamp_str("not even close to a date", &p).is_none());
    }
}

// ---- Naive timestamps + policy ----

#[test]
fn refuse_rejects_naive_timestamps() {
    assert!(parse_timestamp_str("2024-01-15 10:30:00", &refuse()).is_none());
    assert!(parse_timestamp_str("2024-01-15T10:30:00", &refuse()).is_none());
}

#[test]
fn assume_utc_parses_naive_as_utc() {
    let parsed = parse_timestamp_str("2024-01-15 10:30:00", &utc()).unwrap();
    assert_eq!(parsed, t(1_705_314_600));
    let t_form = parse_timestamp_str("2024-01-15T10:30:00", &utc()).unwrap();
    assert_eq!(t_form, t(1_705_314_600));
}

#[test]
fn assume_fixed_offset_applies_offset() {
    // +05:00 means clock reads 15:30 when UTC is 10:30.
    let parsed = parse_timestamp_str("2024-01-15T15:30:00", &fixed(5 * 3600)).unwrap();
    let utc_ref = parse_timestamp_str("2024-01-15T10:30:00Z", &refuse()).unwrap();
    assert_eq!(parsed, utc_ref);

    // -07:00 means clock reads 03:30 when UTC is 10:30.
    let pst = parse_timestamp_str("2024-01-15T03:30:00", &fixed(-7 * 3600)).unwrap();
    assert_eq!(pst, utc_ref);
}

#[test]
fn local_policy_falls_back_to_dateparser() {
    // Just verify it parses to some point in time. The exact value is
    // host-tz-dependent on purpose.
    assert!(parse_timestamp_str("2024-01-15 10:30:00", &local()).is_some());
}

#[test]
fn epoch_seconds_interpret() {
    let ti = TimeInterpreter::EpochSeconds;
    assert_eq!(ti.interpret(TimeRaw::Int(1_705_314_600)).unwrap(), t(1_705_314_600));
    assert!(ti.interpret(TimeRaw::Int(-1)).is_none());
    assert!(ti.interpret(TimeRaw::Str("nope")).is_none());
}

#[test]
fn epoch_millis_interpret() {
    let ti = TimeInterpreter::EpochMillis;
    let parsed = ti.interpret(TimeRaw::Int(1_705_314_600_123)).unwrap();
    assert_eq!(parsed, ms(1_705_314_600_123));
}

#[test]
fn string_timestamp_dispatch_only_takes_strings() {
    let ti = TimeInterpreter::StringTimestamp(NaiveZonePolicy::AssumeUtc);
    assert!(ti.interpret(TimeRaw::Str("2024-01-15T10:30:00Z")).is_some());
    assert!(ti.interpret(TimeRaw::Int(1)).is_none());
}

#[test]
fn refuse_is_the_default_policy() {
    assert!(matches!(NaiveZonePolicy::default(), NaiveZonePolicy::Refuse));
}

#[test]
fn has_explicit_zone_recognizes_canonical_forms() {
    assert!(has_explicit_zone("2024-01-15T10:30:00Z"));
    assert!(has_explicit_zone("2024-01-15T10:30:00+05:00"));
    assert!(has_explicit_zone("2024-01-15T10:30:00-0700"));
    assert!(has_explicit_zone("Mon, 15 Jan 2024 10:30:00 GMT"));
    assert!(has_explicit_zone("1705314600")); // numeric epoch
}

#[test]
fn has_explicit_zone_rejects_naive_forms() {
    assert!(!has_explicit_zone("2024-01-15T10:30:00"));
    assert!(!has_explicit_zone("2024-01-15 10:30:00"));
    assert!(!has_explicit_zone("Jan 15 2024 10:30:00"));
}

// ---- UUIDv7 / ULID ----

fn synthetic_uuidv7(millis: u64) -> String {
    // millis fits in 48 bits; first 8 hex chars = high 32 bits,
    // next 4 = next 16 bits. Padding the rest with deterministic
    // bytes so the version (`7`) and variant (`8`) nibbles are
    // correct.
    let hi32 = (millis >> 16) as u32;
    let lo16 = (millis & 0xFFFF) as u16;
    format!("{:08x}-{:04x}-7000-8000-000000000000", hi32, lo16)
}

#[test]
fn uuidv7_round_trip() {
    let millis = 1_700_000_000_000_u64;
    let uuid = synthetic_uuidv7(millis);
    let parsed = parse_uuidv7_timestamp(&uuid).unwrap();
    assert_eq!(parsed, ms(millis));
}

#[test]
fn uuidv7_accepts_unhyphenated_form() {
    let uuid = synthetic_uuidv7(1_705_314_600_000);
    let stripped: String = uuid.chars().filter(|c| *c != '-').collect();
    let parsed = parse_uuidv7_timestamp(&stripped).unwrap();
    assert_eq!(parsed, ms(1_705_314_600_000));
}

#[test]
fn uuidv7_accepts_uppercase() {
    let uuid = synthetic_uuidv7(1_705_314_600_000).to_ascii_uppercase();
    let parsed = parse_uuidv7_timestamp(&uuid).unwrap();
    assert_eq!(parsed, ms(1_705_314_600_000));
}

#[test]
fn identifiers_give_back_their_time_in_digits_of_either_case() {
    let millis = 0x018f_ABCD_ef01u64;
    for s in [
        "018fabcd-EF01-7000-8000-000000000000",
        "018FabCD-ef01-7fff-BFFF-ffffffffffff",
        "018fABCDEf0170008000000000000000",
    ] {
        assert_eq!(parse_uuidv7_timestamp(s), Some(ms(millis)), "{s}");
    }
    let upper = synthetic_ulid(millis);
    let mixed: String = upper
        .chars()
        .enumerate()
        .map(|(i, c)| if i % 2 == 0 { c.to_ascii_lowercase() } else { c })
        .collect();
    assert_eq!(parse_ulid_timestamp(&mixed), Some(ms(millis)));
}

#[test]
fn uuidv7_rejects_other_versions() {
    // UUIDv4 — random — should be rejected because version nibble is 4.
    let v4 = "f47ac10b-58cc-4372-a567-0e02b2c3d479";
    assert!(parse_uuidv7_timestamp(v4).is_none());
    // UUIDv1, v3, v5 — all rejected.
    let v1 = "550e8400-e29b-11d4-a716-446655440000";
    assert!(parse_uuidv7_timestamp(v1).is_none());
}

#[test]
fn uuidv7_rejects_malformed() {
    assert!(parse_uuidv7_timestamp("nope").is_none());
    assert!(parse_uuidv7_timestamp("").is_none());
    // Wrong length.
    assert!(parse_uuidv7_timestamp("018bba90-8800-7000").is_none());
    // Hyphens in the length of the unhyphenated form.
    assert!(parse_uuidv7_timestamp("018bba90-8800-7000-8000-00000000").is_none());
    // A hyphen too many.
    assert!(parse_uuidv7_timestamp("018bba90-8800-7000-8000-0000-0000000").is_none());
    // Missing hyphen.
    assert!(parse_uuidv7_timestamp("018bba908800-7000-8000-000000000000-").is_none());
}

#[test]
fn uuidv7_via_interpreter() {
    let uuid = synthetic_uuidv7(1_700_000_000_000);
    let ti = TimeInterpreter::Uuidv7;
    let parsed = ti.interpret(TimeRaw::Str(&uuid)).unwrap();
    assert_eq!(parsed, ms(1_700_000_000_000));
    // Should reject Int inputs.
    assert!(ti.interpret(TimeRaw::Int(1)).is_none());
}

fn synthetic_ulid(millis: u64) -> String {
    // Encode 48-bit millis as 10 Crockford base32 chars; pad
    // randomness section with zeros.
    const ALPHA: &[u8] = b"0123456789ABCDEFGHJKMNPQRSTVWXYZ";
    let mut chars = [0u8; 10];
    let mut m = millis;
    for slot in (0..10).rev() {
        chars[slot] = ALPHA[(m & 0x1F) as usize];
        m >>= 5;
    }
    let head = std::str::from_utf8(&chars).unwrap().to_string();
    format!("{head}{}", "0".repeat(16))
}

#[test]
fn ulid_round_trip() {
    let millis = 1_700_000_000_000_u64;
    let ulid = synthetic_ulid(millis);
    let parsed = parse_ulid_timestamp(&ulid).unwrap();
    assert_eq!(parsed, ms(millis));
}

#[test]
fn ulid_accepts_lowercase() {
    let ulid = synthetic_ulid(1_705_314_600_000).to_ascii_lowercase();
    let parsed = parse_ulid_timestamp(&ulid).unwrap();
    assert_eq!(parsed, ms(1_705_314_600_000));
}

#[test]
fn ulid_rejects_excluded_letters() {
    // Substitute an 'I' for a valid char — should fail.
    let mut ulid = synthetic_ulid(1_700_000_000_000);
    // Replace the last char (originally '0') with 'I' — invalid in Crockford.
    let pos = ulid.len() - 1;
    ulid.replace_range(pos..pos + 1, "I");
    assert!(parse_ulid_timestamp(&ulid).is_none());
    // Same for L, O, U.
    for bad in &['L', 'O', 'U'] {
        let mut bad_ulid = synthetic_ulid(1_700_000_000_000);
        bad_ulid.replace_range(pos..pos + 1, &bad.to_string());
        assert!(parse_ulid_timestamp(&bad_ulid).is_none(), "{bad}");
    }
}

#[test]
fn ulid_rejects_wrong_length() {
    assert!(parse_ulid_timestamp("").is_none());
    assert!(parse_ulid_timestamp("01HE1JFRZZ").is_none()); // 10 chars
    assert!(parse_ulid_timestamp("01HE1JFRZZAA00000000000000ABC").is_none()); // 29
}

#[test]
fn ulid_via_interpreter() {
    let ulid = synthetic_ulid(1_700_000_000_000);
    let ti = TimeInterpreter::Ulid;
    let parsed = ti.interpret(TimeRaw::Str(&ulid)).unwrap();
    assert_eq!(parsed, ms(1_700_000_000_000));
    assert!(ti.interpret(TimeRaw::Int(1)).is_none());
}

#[test]
fn digits_are_seconds_milliseconds_or_nanoseconds() {
    for p in [refuse(), utc(), local()] {
        assert_eq!(parse_timestamp_str("1705314600", &p), Some(t(1_705_314_600)));
        assert_eq!(parse_timestamp_str("1705314600123", &p), Some(ms(1_705_314_600_123)));
        assert_eq!(
            parse_timestamp_str("1705314600123456789", &p),
            Some(UnixTime { nanos: 1_705_314_600_123_456_789 })
        );
    }
}

#[test]
fn a_comment_behind_a_date_is_no_offset() {
    let s = "Mon, 15 Jan 2024 10:30:00 +0000 (x-2512)";
    assert_eq!(parse_timestamp_str(s, &local()), Some(t(1_705_314_600)));
}

#[test]
fn an_offset_of_a_day_or_more_is_none() {
    for s in ["2021-05-01 01:17:02 +2530", "2021-05-01+24:00", "01:17 -9959", "May 8, 2009 05:57 +2400"] {
        assert!(parse_timestamp_str(s, &refuse()).is_none(), "{s}");
        assert!(parse_timestamp_str(s, &local()).is_none(), "{s}");
    }
    assert!(parse_timestamp_str("2021-05-01 01:17:02 +2359", &refuse()).is_some());
}

#[test]
fn names_of_months_with_a_zone_are_complete() {
    for s in [
        "Mon, 15 Jan 2024 10:30:00 GMT",
        "15 January 2024 10:30:00 UTC",
        "Jan 15, 2024 10:30:00 UTC",
        "January 15, 2024 10:30:00 +0000",
        "15 Jan 2024, 11:30:00 +0100",
    ] {
        let found = parse_timestamp_str(s, &refuse());
        for p in [utc(), fixed(3600), local()] {
            assert_eq!(parse_timestamp_str(s, &p), found, "{s}");
        }
        if let Some(at) = found {
            assert_eq!(at, t(1_705_314_600), "{s}");
        }
    }
    assert_eq!(parse_timestamp_str("Jan 15, 2024 10:30:00 UTC", &refuse()), Some(t(1_705_314_600)));
}
