//! Texts in the formats that a schema can ask for.
use crate::synth::random::{Dice, Rolls};
use crate::synth::shape::StringFormat;
use crate::text;
use vstd::prelude::*;

verus! {

// ---------------------------------------------------------------------
// The model
// ---------------------------------------------------------------------

/// Letters `a` to `z` alone.
pub open spec fn lower_case(s: Seq<char>) -> bool {
    forall|i: int| 0 <= i < s.len() ==> 'a' <= (#[trigger] s[i]) && s[i] <= 'z'
}

pub open spec fn two_digits(n: int) -> Seq<char> {
    seq![text::digit_char(n / 10), text::digit_char(n % 10)]
}

pub open spec fn byte_text(b: u8) -> Seq<char> {
    seq![text::digit_char(b as int / 16), text::digit_char(b as int % 16)]
}

/// The bytes of a version 4 UUID with its variant, the rest as given.
pub open spec fn stamped(b: Seq<u8>) -> Seq<u8> {
    b.update(6, (b[6] & 0x0f) | 0x40).update(8, (b[8] & 0x3f) | 0x80)
}

/// The hyphenated text of the first `n` bytes of a UUID.
pub open spec fn uuid_upto(b: Seq<u8>, n: int) -> Seq<char>
    decreases n,
{
    if n <= 0 {
        Seq::empty()
    } else {
        let front = uuid_upto(b, n - 1);
        let joined = if n - 1 == 4 || n - 1 == 6 || n - 1 == 8 || n - 1 == 10 {
            front.push('-')
        } else {
            front
        };
        joined + byte_text(b[n - 1])
    }
}

pub open spec fn uuid_chars(b: Seq<u8>) -> Seq<char> {
    uuid_upto(stamped(b), 16)
}

pub open spec fn date_chars(year: int, month: int, day: int) -> Seq<char> {
    text::numeral(year, 10).push('-') + two_digits(month).push('-') + two_digits(day)
}

pub open spec fn clock_chars(hour: int, minute: int, second: int) -> Seq<char> {
    two_digits(hour).push(':') + two_digits(minute).push(':') + two_digits(second)
}

pub open spec fn date_time_chars(
    year: int,
    month: int,
    day: int,
    hour: int,
    minute: int,
    second: int,
) -> Seq<char> {
    date_chars(year, month, day).push('T') + clock_chars(hour, minute, second).push('Z')
}

pub open spec fn ipv4_chars(a: int, b: int, c: int, d: int) -> Seq<char> {
    text::numeral(a, 10).push('.') + text::numeral(b, 10).push('.') + text::numeral(c, 10).push('.')
        + text::numeral(d, 10)
}

/// Hexadecimal numerals with colons between them.
pub open spec fn ipv6_chars(parts: Seq<u16>) -> Seq<char>
    decreases parts.len(),
{
    if parts.len() == 0 {
        Seq::empty()
    } else {
        let front = ipv6_chars(parts.drop_last());
        let joined = if parts.len() > 1 {
            front.push(':')
        } else {
            front
        };
        joined + text::numeral(parts.last() as int, 16)
    }
}

pub open spec fn email_chars(user: Seq<char>, host: Seq<char>) -> Seq<char> {
    user.push('@') + host + ".com"@
}

pub open spec fn url_chars(host: Seq<char>, page: Seq<char>) -> Seq<char> {
    "https://"@ + host + ".com/"@ + page
}

pub open spec fn a_date(year: int, month: int, day: int) -> bool {
    2020 <= year <= 2026 && 1 <= month <= 12 && 1 <= day <= 28
}

pub open spec fn a_time(hour: int, minute: int, second: int) -> bool {
    0 <= hour < 24 && 0 <= minute < 60 && 0 <= second < 60
}

/// A text that a draw in the given format can lead to.
pub open spec fn formatted(format: Option<StringFormat>, s: Seq<char>) -> bool {
    match format {
        None => lower_case(s) && 3 <= s.len() <= 12,
        Some(StringFormat::Uuid) => exists|b: Seq<u8>|
            b.len() == 16 && s == #[trigger] uuid_chars(b),
        Some(StringFormat::DateTime) => exists|y: int, mo: int, d: int, h: int, mi: int, sec: int|
            a_date(y, mo, d) && a_time(h, mi, sec) && s == #[trigger] date_time_chars(
                y,
                mo,
                d,
                h,
                mi,
                sec,
            ),
        Some(StringFormat::Date) => exists|y: int, m: int, d: int|
            a_date(y, m, d) && s == #[trigger] date_chars(y, m, d),
        Some(StringFormat::Email) => exists|user: Seq<char>, host: Seq<char>|
            lower_case(user) && 4 <= user.len() <= 8 && lower_case(host) && 4 <= host.len() <= 8
                && s == #[trigger] email_chars(user, host),
        Some(StringFormat::Ipv4) => exists|a: int, b: int, c: int, d: int|
            0 <= a <= 255 && 0 <= b <= 255 && 0 <= c <= 255 && 0 <= d <= 255
                && s == #[trigger] ipv4_chars(a, b, c, d),
        Some(StringFormat::Ipv6) => exists|parts: Seq<u16>|
            parts.len() == 8 && s == #[trigger] ipv6_chars(parts),
        Some(StringFormat::Url) => exists|host: Seq<char>, page: Seq<char>|
            lower_case(host) && 4 <= host.len() <= 8 && lower_case(page) && 4 <= page.len() <= 8
                && s == #[trigger] url_chars(host, page),
    }
}

// ---------------------------------------------------------------------
// Texts of what was drawn
// ---------------------------------------------------------------------

fn push_digit(out: &mut String, d: u8)
    requires
        d < 16,
    ensures
        final(out)@ == old(out)@.push(text::digit_char(d as int)),
{
    if d < 10 {
        out.push((d + 48) as char);
    } else {
        out.push((d - 10 + 97) as char);
    }
}

fn push_two(out: &mut String, n: u8)
    requires
        n < 100,
    ensures
        final(out)@ == old(out)@ + two_digits(n as int),
{
    push_digit(out, n / 10);
    push_digit(out, n % 10);
    assert(out@ =~= old(out)@ + two_digits(n as int));
}

/// The text of a version 4 UUID made of the given bytes.
pub fn uuid_text(bytes: &[u8; 16]) -> (s: String)
    ensures
        s@ == uuid_chars(bytes@),
{
    let mut b: Vec<u8> = Vec::new();
    let mut k: usize = 0;
    while k < 16
        invariant
            k <= 16,
            b@ == bytes@.take(k as int),
        decreases 16 - k,
    {
        b.push(bytes[k]);
        k += 1;
        assert(b@ =~= bytes@.take(k as int));
    }
    b.set(6, (bytes[6] & 0x0f) | 0x40);
    b.set(8, (bytes[8] & 0x3f) | 0x80);
    assert(b@ =~= stamped(bytes@));
    let mut s = String::new();
    let mut i: usize = 0;
    while i < 16
        invariant
            i <= 16,
            b@.len() == 16,
            s@ == uuid_upto(b@, i as int),
        decreases 16 - i,
    {
        if i == 4 || i == 6 || i == 8 || i == 10 {
            s.push('-');
        }
        push_digit(&mut s, b[i] / 16);
        push_digit(&mut s, b[i] % 16);
        i += 1;
        assert(s@ =~= uuid_upto(b@, i as int));
    }
    s
}

pub fn date_text(year: u64, month: u8, day: u8) -> (s: String)
    requires
        year >= 1000,
        month < 100,
        day < 100,
    ensures
        s@ == date_chars(year as int, month as int, day as int),
{
    let mut s = String::new();
    text::push_decimal(&mut s, year);
    s.push('-');
    push_two(&mut s, month);
    s.push('-');
    push_two(&mut s, day);
    assert(s@ =~= date_chars(year as int, month as int, day as int));
    s
}

pub fn date_time_text(year: u64, month: u8, day: u8, hour: u8, minute: u8, second: u8) -> (s:
    String)
    requires
        year >= 1000,
        month < 100,
        day < 100,
        hour < 100,
        minute < 100,
        second < 100,
    ensures
        s@ == date_time_chars(
            year as int,
            month as int,
            day as int,
            hour as int,
            minute as int,
            second as int,
        ),
{
    let mut s = date_text(year, month, day);
    s.push('T');
    let ghost before = s@;
    push_two(&mut s, hour);
    s.push(':');
    push_two(&mut s, minute);
    s.push(':');
    push_two(&mut s, second);
    assert(s@ =~= before + clock_chars(hour as int, minute as int, second as int));
    s.push('Z');
    assert(s@ =~= before + clock_chars(hour as int, minute as int, second as int).push('Z'));
    s
}

pub fn ipv4_text(a: u8, b: u8, c: u8, d: u8) -> (s: String)
    ensures
        s@ == ipv4_chars(a as int, b as int, c as int, d as int),
{
    let mut s = String::new();
    text::push_decimal(&mut s, a as u64);
    s.push('.');
    text::push_decimal(&mut s, b as u64);
    s.push('.');
    text::push_decimal(&mut s, c as u64);
    s.push('.');
    text::push_decimal(&mut s, d as u64);
    assert(s@ =~= ipv4_chars(a as int, b as int, c as int, d as int));
    s
}

pub fn ipv6_text(parts: &Vec<u16>) -> (s: String)
    ensures
        s@ == ipv6_chars(parts@),
{
    let mut s = String::new();
    let mut i: usize = 0;
    while i < parts.len()
        invariant
            i <= parts@.len(),
            s@ == ipv6_chars(parts@.take(i as int)),
        decreases parts@.len() - i,
    {
        if i > 0 {
            s.push(':');
        }
        let digits = text::numeral_of(parts[i] as u64, 16);
        text::push_chars(&mut s, &digits);
        i += 1;
        assert(parts@.take(i as int).drop_last() =~= parts@.take(i - 1));
    }
    assert(parts@.take(i as int) =~= parts@);
    s
}

pub fn email_text(user: &String, host: &String) -> (s: String)
    ensures
        s@ == email_chars(user@, host@),
{
    let mut s = user.clone();
    s.push('@');
    s.append(host.as_str());
    s.append(".com");
    assert(s@ =~= email_chars(user@, host@));
    s
}

pub fn url_text(host: &String, page: &String) -> (s: String)
    ensures
        s@ == url_chars(host@, page@),
{
    let mut s = "https://".to_string();
    s.append(host.as_str());
    s.append(".com/");
    s.append(page.as_str());
    assert(s@ =~= url_chars(host@, page@));
    s
}

// ---------------------------------------------------------------------
// Drawing
// ---------------------------------------------------------------------

/// Letters as they are drawn, and where they leave the generator.
pub open spec fn letters(r: Rolls, n: nat) -> (Seq<char>, Rolls)
    decreases n,
{
    if n == 0 {
        (Seq::empty(), r)
    } else {
        let (s, r) = letters(r, (n - 1) as nat);
        let (c, r) = r.u8(97, 122);
        (s.push(c as char), r)
    }
}

/// A word whose length is drawn first.
pub open spec fn lorem(r: Rolls, low: u64, high: u64) -> (Seq<char>, Rolls) {
    let (n, r) = r.u64(low, high);
    letters(r, n as nat)
}

pub open spec fn date_drawn(r: Rolls) -> (Seq<char>, Rolls) {
    let (y, r) = r.i32(2020, 2026);
    let (m, r) = r.i32(1, 12);
    let (d, r) = r.i32(1, 28);
    (date_chars(y as int, m as int, d as int), r)
}

pub open spec fn date_time_drawn(r: Rolls) -> (Seq<char>, Rolls) {
    let (y, r) = r.i32(2020, 2026);
    let (mo, r) = r.i32(1, 12);
    let (d, r) = r.i32(1, 28);
    let (h, r) = r.i32(0, 23);
    let (mi, r) = r.i32(0, 59);
    let (sec, r) = r.i32(0, 59);
    (date_time_chars(y as int, mo as int, d as int, h as int, mi as int, sec as int), r)
}

pub open spec fn ipv4_drawn(r: Rolls) -> (Seq<char>, Rolls) {
    let (a, r) = r.i32(0, 255);
    let (b, r) = r.i32(0, 255);
    let (c, r) = r.i32(0, 255);
    let (d, r) = r.i32(0, 255);
    (ipv4_chars(a as int, b as int, c as int, d as int), r)
}

pub open spec fn parts_drawn(r: Rolls, n: nat) -> (Seq<u16>, Rolls)
    decreases n,
{
    if n == 0 {
        (Seq::empty(), r)
    } else {
        let (parts, r) = parts_drawn(r, (n - 1) as nat);
        let (p, r) = r.u16(0, 0xffff);
        (parts.push(p), r)
    }
}

/// The text that is drawn in a format, and where it leaves the generator.
pub open spec fn text_drawn(format: Option<StringFormat>, r: Rolls) -> (Seq<char>, Rolls) {
    match format {
        Some(StringFormat::Uuid) => {
            let (b, r) = r.bytes();
            (uuid_chars(b), r)
        },
        Some(StringFormat::DateTime) => date_time_drawn(r),
        Some(StringFormat::Date) => date_drawn(r),
        Some(StringFormat::Email) => {
            let (user, r) = lorem(r, 4, 8);
            let (host, r) = lorem(r, 4, 8);
            (email_chars(user, host), r)
        },
        Some(StringFormat::Ipv4) => ipv4_drawn(r),
        Some(StringFormat::Ipv6) => {
            let (parts, r) = parts_drawn(r, 8);
            (ipv6_chars(parts), r)
        },
        Some(StringFormat::Url) => {
            let (host, r) = lorem(r, 4, 8);
            let (page, r) = lorem(r, 4, 8);
            (url_chars(host, page), r)
        },
        None => lorem(r, 3, 12),
    }
}

/// A word of lower-case letters whose length is in the given range.
pub(crate) fn gen_lorem(rng: &mut Dice, low: usize, high: usize) -> (s: String)
    requires
        low <= high,
    ensures
        (s@, final(rng)@) == lorem(old(rng)@, low as u64, high as u64),
        lower_case(s@),
        low <= s@.len() <= high,
{
    let len: usize = rng.between(low, high);
    let ghost start = rng@;
    let mut s = String::new();
    let mut i: usize = 0;
    assert(s@ =~= Seq::empty());
    while i < len
        invariant
            i <= len,
            s@.len() == i,
            lower_case(s@),
            (s@, rng@) == letters(start, i as nat),
        decreases len - i,
    {
        let c: u8 = rng.between_u8(97, 122);
        s.push(c as char);
        i += 1;
    }
    s
}

fn gen_date_time(rng: &mut Dice) -> (s: String)
    ensures
        (s@, final(rng)@) == date_time_drawn(old(rng)@),
        formatted(Some(StringFormat::DateTime), s@),
{
    let y: i32 = rng.between_i32(2020, 2026);
    let mo: i32 = rng.between_i32(1, 12);
    let d: i32 = rng.between_i32(1, 28);
    let h: i32 = rng.between_i32(0, 23);
    let mi: i32 = rng.between_i32(0, 59);
    let sec: i32 = rng.between_i32(0, 59);
    let s = date_time_text(y as u64, mo as u8, d as u8, h as u8, mi as u8, sec as u8);
    assert(a_date(y as int, mo as int, d as int) && a_time(h as int, mi as int, sec as int));
    s
}

fn gen_ipv6(rng: &mut Dice) -> (s: String)
    ensures
        s@ == ipv6_chars(parts_drawn(old(rng)@, 8).0),
        final(rng)@ == parts_drawn(old(rng)@, 8).1,
        formatted(Some(StringFormat::Ipv6), s@),
{
    let ghost start = rng@;
    let mut parts: Vec<u16> = Vec::new();
    let mut i: usize = 0;
    while i < 8
        invariant
            i <= 8,
            parts@.len() == i,
            (parts@, rng@) == parts_drawn(start, i as nat),
        decreases 8 - i,
    {
        let n: u16 = rng.between_u16(0, 0xffff);
        parts.push(n);
        i += 1;
    }
    ipv6_text(&parts)
}

/// A text in the given format; a plain word where there is none.
pub(crate) fn gen_string(format: Option<StringFormat>, rng: &mut Dice) -> (s: String)
    ensures
        (s@, final(rng)@) == text_drawn(format, old(rng)@),
        formatted(format, s@),
{
    match format {
        Some(StringFormat::Uuid) => {
            let bytes = rng.sixteen_bytes();
            uuid_text(&bytes)
        },
        Some(StringFormat::DateTime) => gen_date_time(rng),
        Some(StringFormat::Date) => {
            let y: i32 = rng.between_i32(2020, 2026);
            let m: i32 = rng.between_i32(1, 12);
            let d: i32 = rng.between_i32(1, 28);
            let s = date_text(y as u64, m as u8, d as u8);
            assert(a_date(y as int, m as int, d as int));
            s
        },
        Some(StringFormat::Email) => {
            let user = gen_lorem(rng, 4, 8);
            let host = gen_lorem(rng, 4, 8);
            email_text(&user, &host)
        },
        Some(StringFormat::Ipv4) => {
            let a: i32 = rng.between_i32(0, 255);
            let b: i32 = rng.between_i32(0, 255);
            let c: i32 = rng.between_i32(0, 255);
            let d: i32 = rng.between_i32(0, 255);
            ipv4_text(a as u8, b as u8, c as u8, d as u8)
        },
        Some(StringFormat::Ipv6) => gen_ipv6(rng),
        Some(StringFormat::Url) => {
            let host = gen_lorem(rng, 4, 8);
            let page = gen_lorem(rng, 4, 8);
            url_text(&host, &page)
        },
        None => gen_lorem(rng, 3, 12),
    }
}

/// The text of a UUID has thirty-six characters, with hyphens in their places;
/// it says that the version is four, and its variant is that of RFC 4122.
pub proof fn law_uuid_texts_say_their_version(b: Seq<u8>)
    requires
        b.len() == 16,
    ensures
        ({
            let s = uuid_chars(b);
            &&& s.len() == 36
            &&& s[8] == '-' && s[13] == '-' && s[18] == '-' && s[23] == '-'
            &&& s[14] == '4'
            &&& s[19] == '8' || s[19] == '9' || s[19] == 'a' || s[19] == 'b'
        }),
{
    let c = stamped(b);
    let v = b[6];
    let w = b[8];
    assert(((v & 0x0f) | 0x40) / 16 == 4u8) by (bit_vector);
    assert(8 <= ((w & 0x3f) | 0x80) / 16 <= 11u8) by (bit_vector);
    assert(c[6] == (v & 0x0f) | 0x40);
    assert(c[8] == (w & 0x3f) | 0x80);
    let a = uuid_upto(c, 4);
    assert(a.len() == 8) by {
        reveal_with_fuel(uuid_upto, 5);
    }
    let d = uuid_upto(c, 6);
    assert(d == a.push('-') + byte_text(c[4]) + byte_text(c[5])) by {
        reveal_with_fuel(uuid_upto, 3);
    }
    let e = uuid_upto(c, 8);
    assert(e == d.push('-') + byte_text(c[6]) + byte_text(c[7])) by {
        reveal_with_fuel(uuid_upto, 3);
    }
    let f = uuid_upto(c, 10);
    assert(f == e.push('-') + byte_text(c[8]) + byte_text(c[9])) by {
        reveal_with_fuel(uuid_upto, 3);
    }
    let s = uuid_upto(c, 16);
    assert(s == f.push('-') + byte_text(c[10]) + byte_text(c[11]) + byte_text(c[12]) + byte_text(
        c[13],
    ) + byte_text(c[14]) + byte_text(c[15])) by {
        reveal_with_fuel(uuid_upto, 7);
    }
    assert(s[14] == byte_text(c[6])[0]);
    assert(s[19] == byte_text(c[8])[0]);
    assert(byte_text(c[6])[0] == text::digit_char(4));
    assert(s[8] == '-' && s[13] == '-' && s[18] == '-' && s[23] == '-');
}

/// A date is written in ten characters, which spell its year, its month and
/// its day; a time in eight, which spell its hours, minutes and seconds.
pub proof fn law_dates_and_times_are_spelled(
    year: int,
    month: int,
    day: int,
    hour: int,
    minute: int,
    second: int,
)
    requires
        a_date(year, month, day),
        a_time(hour, minute, second),
    ensures
        ({
            let s = date_chars(year, month, day);
            &&& s.len() == 10
            &&& s[4] == '-' && s[7] == '-'
            &&& text::numeral_value(s.take(4), 10) == year
            &&& text::numeral_value(s.subrange(5, 7), 10) == month
            &&& text::numeral_value(s.subrange(8, 10), 10) == day
        }),
        ({
            let s = clock_chars(hour, minute, second);
            &&& s.len() == 8
            &&& s[2] == ':' && s[5] == ':'
            &&& text::numeral_value(s.take(2), 10) == hour
            &&& text::numeral_value(s.subrange(3, 5), 10) == minute
            &&& text::numeral_value(s.subrange(6, 8), 10) == second
        }),
{
    let y = text::numeral(year, 10);
    text::lemma_numeral(year, 10);
    assert(y.len() == 4) by {
        reveal_with_fuel(text::numeral, 5);
    }
    lemma_two_digits(month);
    lemma_two_digits(day);
    lemma_two_digits(hour);
    lemma_two_digits(minute);
    lemma_two_digits(second);
    let s = date_chars(year, month, day);
    assert(s.take(4) =~= y);
    assert(s.subrange(5, 7) =~= two_digits(month));
    assert(s.subrange(8, 10) =~= two_digits(day));
    let t = clock_chars(hour, minute, second);
    assert(t.take(2) =~= two_digits(hour));
    assert(t.subrange(3, 5) =~= two_digits(minute));
    assert(t.subrange(6, 8) =~= two_digits(second));
}

proof fn lemma_two_digits(n: int)
    requires
        0 <= n < 100,
    ensures
        text::numeral_value(two_digits(n), 10) == n,
        two_digits(n).len() == 2,
{
    let s = two_digits(n);
    let one = s.drop_last();
    assert(one.drop_last() =~= Seq::<char>::empty());
    assert(text::numeral_value(one.drop_last(), 10) == 0);
    assert(text::digit_value(one.last()) == n / 10);
    assert(text::digit_value(s.last()) == n % 10);
    assert(text::numeral_value(one, 10) == n / 10);
}

} // verus!
