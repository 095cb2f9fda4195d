//! What a string looks like: its format, its skeleton, and its length class.
use crate::text;
use vstd::prelude::*;
use vstd::string::*;
use vstd::utf8::*;

verus! {

/// Best-match canonical format for an observed string. Detection prefers
/// more-specific formats over less-specific ones, and produces exactly one
/// classification per string.
#[derive(Clone, Copy, Debug, Eq, Hash, PartialEq, Ord, PartialOrd, Structural)]
pub enum StringFormat {
    Uuid,
    IsoTimestamp,
    IsoDate,
    Ipv4,
    Ipv6,
    Email,
    UrlHttp,
    AllDigits,
    AllAlpha,
    AlphaNum,
    Other,
}

// ---------------------------------------------------------------------
// Bytes
// ---------------------------------------------------------------------

pub open spec fn digit(b: u8) -> bool {
    0x30 <= b <= 0x39
}

pub open spec fn alpha(b: u8) -> bool {
    0x41 <= b <= 0x5a || 0x61 <= b <= 0x7a
}

pub open spec fn hex(b: u8) -> bool {
    digit(b) || 0x41 <= b <= 0x46 || 0x61 <= b <= 0x66
}

fn is_digit(b: u8) -> (r: bool)
    ensures
        r == digit(b),
{
    0x30 <= b && b <= 0x39
}

fn is_alpha(b: u8) -> (r: bool)
    ensures
        r == alpha(b),
{
    (0x41 <= b && b <= 0x5a) || (0x61 <= b && b <= 0x7a)
}

pub fn is_hex_digit(b: u8) -> (r: bool)
    ensures
        r == hex(b),
{
    is_digit(b) || (0x41 <= b && b <= 0x46) || (0x61 <= b && b <= 0x66)
}

// ---------------------------------------------------------------------
// Formats
// ---------------------------------------------------------------------

/// 36 bytes: hexadecimal digits, with hyphens at the four fixed places.
pub open spec fn uuid(b: Seq<u8>) -> bool {
    &&& b.len() == 36
    &&& forall|i: int|
        0 <= i < 36 ==> if i == 8 || i == 13 || i == 18 || i == 23 {
            #[trigger] b[i] == 0x2d
        } else {
            hex(b[i])
        }
}

/// `DD` at position `i`.
pub open spec fn two_digits(b: Seq<u8>, i: int) -> bool {
    digit(b[i]) && digit(b[i + 1])
}

/// The bytes start with `DDDD-DD-DD`.
pub open spec fn iso_date_prefix(b: Seq<u8>) -> bool {
    &&& b.len() >= 10
    &&& two_digits(b, 0)
    &&& two_digits(b, 2)
    &&& b[4] == 0x2d
    &&& two_digits(b, 5)
    &&& b[7] == 0x2d
    &&& two_digits(b, 8)
}

pub open spec fn iso_date(b: Seq<u8>) -> bool {
    b.len() == 10 && iso_date_prefix(b)
}

/// The end of the run of digits that starts at `i`.
pub open spec fn digits_end(b: Seq<u8>, i: int) -> int
    decreases b.len() - i,
{
    if 0 <= i < b.len() && digit(b[i]) {
        digits_end(b, i + 1)
    } else {
        i
    }
}

/// Nothing, `Z`, or an offset as `±HHMM` or `±HH:MM`, from `i` to the end.
pub open spec fn zone(b: Seq<u8>, i: int) -> bool {
    ||| i == b.len()
    ||| i + 1 == b.len() && b[i] == 0x5a
    ||| i + 5 == b.len() && (b[i] == 0x2b || b[i] == 0x2d) && two_digits(b, i + 1) && two_digits(
        b,
        i + 3,
    )
    ||| i + 6 == b.len() && (b[i] == 0x2b || b[i] == 0x2d) && two_digits(b, i + 1) && b[i + 3]
        == 0x3a && two_digits(b, i + 4)
}

/// A date, `T` or a space, `HH:MM:SS`, fractional seconds or none, and a
/// zone or none.
pub open spec fn iso_timestamp(b: Seq<u8>) -> bool {
    &&& b.len() >= 19
    &&& iso_date_prefix(b)
    &&& b[10] == 0x54 || b[10] == 0x20
    &&& two_digits(b, 11)
    &&& b[13] == 0x3a
    &&& two_digits(b, 14)
    &&& b[16] == 0x3a
    &&& two_digits(b, 17)
    &&& if b.len() > 19 && b[19] == 0x2e {
        digits_end(b, 20) > 20 && zone(b, digits_end(b, 20))
    } else {
        zone(b, 19)
    }
}

/// The parts between the separators; one more than there are separators.
pub open spec fn split(b: Seq<u8>, sep: u8) -> Seq<Seq<u8>>
    decreases b.len(),
{
    if b.len() == 0 {
        seq![Seq::empty()]
    } else {
        let p = split(b.drop_last(), sep);
        if b.last() == sep {
            p.push(Seq::empty())
        } else {
            p.update(p.len() - 1, p.last().push(b.last()))
        }
    }
}

pub open spec fn decimal_value(b: Seq<u8>) -> int
    decreases b.len(),
{
    if b.len() == 0 {
        0
    } else {
        decimal_value(b.drop_last()) * 10 + (b.last() - 0x30)
    }
}

/// One to three digits that write a number up to 255.
pub open spec fn octet(b: Seq<u8>) -> bool {
    &&& 1 <= b.len() <= 3
    &&& forall|i: int| 0 <= i < b.len() ==> digit(#[trigger] b[i])
    &&& decimal_value(b) <= 255
}

pub open spec fn ipv4(b: Seq<u8>) -> bool {
    let parts = split(b, 0x2e);
    parts.len() == 4 && forall|k: int| 0 <= k < 4 ==> octet(#[trigger] parts[k])
}

pub open spec fn colons(b: Seq<u8>) -> int
    decreases b.len(),
{
    if b.len() == 0 {
        0
    } else {
        colons(b.drop_last()) + (if b.last() == 0x3a {
            1int
        } else {
            0int
        })
    }
}

/// Two to 39 bytes, each a hexadecimal digit or a colon, two colons or more.
pub open spec fn ipv6(b: Seq<u8>) -> bool {
    &&& 2 <= b.len() <= 39
    &&& forall|i: int| 0 <= i < b.len() ==> #[trigger] b[i] == 0x3a || hex(b[i])
    &&& colons(b) >= 2
}

/// The position of the first `@`.
pub open spec fn first_at(b: Seq<u8>, i: int) -> Option<int>
    decreases b.len() - i,
{
    if i < 0 || i >= b.len() {
        None
    } else if b[i] == 0x40 {
        Some(i)
    } else {
        first_at(b, i + 1)
    }
}

/// Something before the first `@`, something behind it, and no space.
pub open spec fn email(b: Seq<u8>) -> bool {
    &&& first_at(b, 0) matches Some(i) && 0 < i < b.len() - 1
    &&& forall|i: int| 0 <= i < b.len() ==> #[trigger] b[i] != 0x20
}

pub open spec fn starts(b: Seq<u8>, p: Seq<u8>) -> bool {
    p.len() <= b.len() && forall|i: int| 0 <= i < p.len() ==> b[i] == #[trigger] p[i]
}

/// Starts with `http://` or `https://`.
pub open spec fn url_http(b: Seq<u8>) -> bool {
    ||| starts(b, seq![0x68u8, 0x74, 0x74, 0x70, 0x3a, 0x2f, 0x2f])
    ||| starts(b, seq![0x68u8, 0x74, 0x74, 0x70, 0x73, 0x3a, 0x2f, 0x2f])
}

pub open spec fn all_digits(b: Seq<u8>) -> bool {
    b.len() > 0 && forall|i: int| 0 <= i < b.len() ==> digit(#[trigger] b[i])
}

pub open spec fn all_alpha(b: Seq<u8>) -> bool {
    b.len() > 0 && forall|i: int| 0 <= i < b.len() ==> alpha(#[trigger] b[i])
}

pub open spec fn all_alphanum(b: Seq<u8>) -> bool {
    b.len() > 0 && forall|i: int| 0 <= i < b.len() ==> alpha(#[trigger] b[i]) || digit(b[i])
}

/// The format of a string, from its bytes.
pub open spec fn format_of(b: Seq<u8>) -> StringFormat {
    if uuid(b) {
        StringFormat::Uuid
    } else if iso_timestamp(b) {
        StringFormat::IsoTimestamp
    } else if iso_date(b) {
        StringFormat::IsoDate
    } else if ipv4(b) {
        StringFormat::Ipv4
    } else if ipv6(b) {
        StringFormat::Ipv6
    } else if email(b) {
        StringFormat::Email
    } else if url_http(b) {
        StringFormat::UrlHttp
    } else if all_digits(b) {
        StringFormat::AllDigits
    } else if all_alpha(b) {
        StringFormat::AllAlpha
    } else if all_alphanum(b) {
        StringFormat::AlphaNum
    } else {
        StringFormat::Other
    }
}

pub fn is_uuid(s: &str) -> (r: bool)
    ensures
        r == uuid(s.spec_bytes()),
{
    let b = s.as_bytes();
    if b.len() != 36 {
        return false;
    }
    let mut i: usize = 0;
    while i < 36
        invariant
            b@ == s.spec_bytes(),
            i <= 36 == b@.len(),
            forall|k: int|
                0 <= k < i ==> if k == 8 || k == 13 || k == 18 || k == 23 {
                    #[trigger] b@[k] == 0x2d
                } else {
                    hex(b@[k])
                },
        decreases 36 - i,
    {
        if i == 8 || i == 13 || i == 18 || i == 23 {
            if b[i] != 0x2d {
                return false;
            }
        } else if !is_hex_digit(b[i]) {
            return false;
        }
        i += 1;
    }
    true
}

fn are_two_digits(b: &[u8], i: usize) -> (r: bool)
    requires
        i + 1 < b@.len(),
    ensures
        r == two_digits(b@, i as int),
{
    let n: usize = b.len();
    is_digit(b[i]) && is_digit(b[i + 1])
}

fn is_iso_date_prefix(b: &[u8]) -> (r: bool)
    ensures
        r == iso_date_prefix(b@),
{
    b.len() >= 10 && are_two_digits(b, 0) && are_two_digits(b, 2) && b[4] == 0x2d
        && are_two_digits(b, 5) && b[7] == 0x2d && are_two_digits(b, 8)
}

pub fn is_iso_date(s: &str) -> (r: bool)
    ensures
        r == iso_date(s.spec_bytes()),
{
    let b = s.as_bytes();
    b.len() == 10 && is_iso_date_prefix(b)
}

fn is_zone(b: &[u8], i: usize) -> (r: bool)
    requires
        i <= b@.len(),
    ensures
        r == zone(b@, i as int),
{
    let left: usize = b.len() - i;
    if left == 0 {
        return true;
    }
    let c: u8 = b[i];
    if c == 0x5a {
        return left == 1;
    }
    if c != 0x2b && c != 0x2d {
        return false;
    }
    if left == 5 {
        are_two_digits(b, i + 1) && are_two_digits(b, i + 3)
    } else if left == 6 {
        are_two_digits(b, i + 1) && b[i + 3] == 0x3a && are_two_digits(b, i + 4)
    } else {
        false
    }
}

pub fn is_iso_timestamp(s: &str) -> (r: bool)
    ensures
        r == iso_timestamp(s.spec_bytes()),
{
    let b = s.as_bytes();
    if b.len() < 19 || !is_iso_date_prefix(b) {
        return false;
    }
    if b[10] != 0x54 && b[10] != 0x20 {
        return false;
    }
    let clock: bool = are_two_digits(b, 11) && b[13] == 0x3a && are_two_digits(b, 14) && b[16]
        == 0x3a && are_two_digits(b, 17);
    if !clock {
        return false;
    }
    if b.len() == 19 || b[19] != 0x2e {
        return is_zone(b, 19);
    }
    let mut i: usize = 20;
    while i < b.len() && is_digit(b[i])
        invariant
            20 <= i <= b@.len(),
            digits_end(b@, 20) == digits_end(b@, i as int),
        decreases b@.len() - i,
    {
        i += 1;
    }
    i > 20 && is_zone(b, i)
}

proof fn lemma_split_nonempty(b: Seq<u8>, sep: u8)
    ensures
        split(b, sep).len() >= 1,
    decreases b.len(),
{
    if b.len() > 0 {
        lemma_split_nonempty(b.drop_last(), sep);
    }
}

pub fn is_ipv4(s: &str) -> (r: bool)
    ensures
        r == ipv4(s.spec_bytes()),
{
    let b = s.as_bytes();
    let mut dots: usize = 0;
    let mut width: usize = 0;
    let mut value: u32 = 0;
    let mut good: bool = true;
    let mut i: usize = 0;
    assert(b@.take(0) =~= Seq::<u8>::empty());
    while i < b.len()
        invariant
            i <= b@.len(),
            split(b@.take(i as int), 0x2e).len() == dots + 1,
            dots <= i,
            width <= i,
            width == split(b@.take(i as int), 0x2e).last().len(),
            good ==> {
                let parts = split(b@.take(i as int), 0x2e);
                &&& forall|k: int| 0 <= k < dots ==> octet(#[trigger] parts[k])
                &&& width <= 3
                &&& forall|k: int| 0 <= k < width ==> digit(#[trigger] parts.last()[k])
                &&& value == decimal_value(parts.last())
                &&& value <= 999
                &&& width <= 2 ==> value <= 99
                &&& width <= 1 ==> value <= 9
                &&& width == 0 ==> value == 0
            },
            !good ==> exists|k: int|
                0 <= k <= dots && !octet(#[trigger] split(b@.take(i as int), 0x2e)[k]) && (k == dots
                    ==> width > 3 || exists|j: int|
                    0 <= j < width && !digit(
                        #[trigger] split(b@.take(i as int), 0x2e).last()[j],
                    )),
        decreases b@.len() - i,
    {
        let c: u8 = b[i];
        let ghost before = split(b@.take(i as int), 0x2e);
        let ghost upto = b@.take(i + 1);
        proof {
            assert(upto.drop_last() =~= b@.take(i as int));
            assert(upto.last() == c);
        }
        let ghost after = split(upto, 0x2e);
        if c == 0x2e {
            assert(forall|k: int| 0 <= k <= dots ==> after[k] == #[trigger] before[k]);
            if good && (width == 0 || value > 255) {
                good = false;
                assert(!octet(after[dots as int]));
            } else if good {
                assert(octet(before.last()));
            } else {
                let ghost k = choose|k: int|
                    0 <= k <= dots && !octet(#[trigger] before[k]) && (k == dots ==> width > 3
                        || exists|j: int| 0 <= j < width && !digit(#[trigger] before.last()[j]));
                assert(!octet(after[k]));
            }
            dots += 1;
            width = 0;
            value = 0;
            assert(after.last() =~= Seq::<u8>::empty());
        } else {
            let ghost old_last = before.last();
            let ghost new_last = after.last();
            assert(new_last =~= old_last.push(c));
            assert(new_last.drop_last() =~= old_last);
            assert(forall|k: int| 0 <= k < dots ==> after[k] == #[trigger] before[k]);
            if good {
                if !is_digit(c) || width == 3 {
                    good = false;
                    if !is_digit(c) {
                        assert(!digit(new_last[width as int]));
                    }
                    assert(!octet(after[dots as int]));
                } else {
                    value = value * 10 + (c - 0x30) as u32;
                    assert forall|k: int| 0 <= k <= width implies digit(#[trigger] new_last[k]) by {
                        if k < width {
                            assert(new_last[k] == old_last[k]);
                        }
                    }
                }
            } else {
                proof {
                    let k = choose|k: int|
                        0 <= k <= dots && !octet(#[trigger] before[k]) && (k == dots ==> width > 3
                            || exists|j: int|
                            0 <= j < width && !digit(#[trigger] before.last()[j]));
                    if k == dots {
                        if width <= 3 {
                            let j = choose|j: int|
                                0 <= j < width && !digit(#[trigger] before.last()[j]);
                            assert(!digit(new_last[j]));
                        }
                        assert(!octet(after[dots as int]));
                    } else {
                        assert(!octet(after[k]));
                    }
                }
            }
            width += 1;
        }
        i += 1;
    }
    assert(b@.take(i as int) =~= b@);
    let ghost parts = split(b@, 0x2e);
    let r: bool = good && dots == 3 && width > 0 && value <= 255;
    proof {
        if good && dots == 3 {
            assert(parts[3] == parts.last());
            if r {
                assert(octet(parts[3]));
            } else {
                assert(!octet(parts[3]));
            }
        }
    }
    r
}

pub fn is_ipv6(s: &str) -> (r: bool)
    ensures
        r == ipv6(s.spec_bytes()),
{
    let b = s.as_bytes();
    if b.len() < 2 || b.len() > 39 {
        return false;
    }
    let mut n: usize = 0;
    let mut i: usize = 0;
    assert(b@.take(0) =~= Seq::<u8>::empty());
    while i < b.len()
        invariant
            b@ == s.spec_bytes(),
            i <= b@.len() <= 39,
            n <= i,
            n == colons(b@.take(i as int)),
            forall|k: int| 0 <= k < i ==> #[trigger] b@[k] == 0x3a || hex(b@[k]),
        decreases b@.len() - i,
    {
        let ghost upto = b@.take(i + 1);
        assert(upto.drop_last() =~= b@.take(i as int));
        assert(upto.last() == b@[i as int]);
        if b[i] == 0x3a {
            n += 1;
        } else if !is_hex_digit(b[i]) {
            return false;
        }
        i += 1;
    }
    assert(b@.take(i as int) =~= b@);
    n >= 2
}

pub fn is_email(s: &str) -> (r: bool)
    ensures
        r == email(s.spec_bytes()),
{
    let b = s.as_bytes();
    let mut at: Option<usize> = None;
    let mut i: usize = 0;
    while i < b.len()
        invariant
            b@ == s.spec_bytes(),
            i <= b@.len(),
            match at {
                None => first_at(b@, 0) == first_at(b@, i as int),
                Some(p) => first_at(b@, 0) == Some(p as int) && p < b@.len(),
            },
            forall|k: int| 0 <= k < i ==> #[trigger] b@[k] != 0x20,
        decreases b@.len() - i,
    {
        if b[i] == 0x20 {
            return false;
        }
        if at.is_none() && b[i] == 0x40 {
            at = Some(i);
        }
        i += 1;
    }
    match at {
        Some(p) => p > 0 && p < b.len() - 1,
        None => false,
    }
}

fn has_prefix(b: &[u8], p: &[u8]) -> (r: bool)
    ensures
        r == starts(b@, p@),
{
    if p.len() > b.len() {
        return false;
    }
    let mut i: usize = 0;
    while i < p.len()
        invariant
            i <= p@.len() <= b@.len(),
            forall|k: int| 0 <= k < i ==> b@[k] == #[trigger] p@[k],
        decreases p@.len() - i,
    {
        if b[i] != p[i] {
            return false;
        }
        i += 1;
    }
    true
}

pub fn is_url_http(s: &str) -> (r: bool)
    ensures
        r == url_http(s.spec_bytes()),
{
    let plain: [u8; 7] = [0x68, 0x74, 0x74, 0x70, 0x3a, 0x2f, 0x2f];
    let secure: [u8; 8] = [0x68, 0x74, 0x74, 0x70, 0x73, 0x3a, 0x2f, 0x2f];
    assert(plain@ =~= seq![0x68u8, 0x74, 0x74, 0x70, 0x3a, 0x2f, 0x2f]);
    assert(secure@ =~= seq![0x68u8, 0x74, 0x74, 0x70, 0x73, 0x3a, 0x2f, 0x2f]);
    let b = s.as_bytes();
    has_prefix(b, plain.as_slice()) || has_prefix(b, secure.as_slice())
}

/// Whether all bytes are digits, all are letters, and all are one of both.
fn classes(b: &[u8]) -> (r: (bool, bool, bool))
    ensures
        r.0 == all_digits(b@),
        r.1 == all_alpha(b@),
        r.2 == all_alphanum(b@),
{
    if b.len() == 0 {
        return (false, false, false);
    }
    let mut digits: bool = true;
    let mut letters: bool = true;
    let mut both: bool = true;
    let mut i: usize = 0;
    while i < b.len()
        invariant
            i <= b@.len(),
            digits == (forall|k: int| 0 <= k < i ==> digit(#[trigger] b@[k])),
            letters == (forall|k: int| 0 <= k < i ==> alpha(#[trigger] b@[k])),
            both == (forall|k: int| 0 <= k < i ==> alpha(#[trigger] b@[k]) || digit(b@[k])),
        decreases b@.len() - i,
    {
        let d: bool = is_digit(b[i]);
        let a: bool = is_alpha(b[i]);
        digits = digits && d;
        letters = letters && a;
        both = both && (a || d);
        i += 1;
    }
    (digits, letters, both)
}

pub fn detect_format(s: &str) -> (r: StringFormat)
    ensures
        r == format_of(s.spec_bytes()),
{
    if is_uuid(s) {
        StringFormat::Uuid
    } else if is_iso_timestamp(s) {
        StringFormat::IsoTimestamp
    } else if is_iso_date(s) {
        StringFormat::IsoDate
    } else if is_ipv4(s) {
        StringFormat::Ipv4
    } else if is_ipv6(s) {
        StringFormat::Ipv6
    } else if is_email(s) {
        StringFormat::Email
    } else if is_url_http(s) {
        StringFormat::UrlHttp
    } else {
        let (digits, letters, both) = classes(s.as_bytes());
        if digits {
            StringFormat::AllDigits
        } else if letters {
            StringFormat::AllAlpha
        } else if both {
            StringFormat::AlphaNum
        } else {
            StringFormat::Other
        }
    }
}

// ---------------------------------------------------------------------
// Skeletons
// ---------------------------------------------------------------------

/// Whether a character has the Unicode property Alphabetic.
pub uninterp spec fn unicode_alphabetic(c: char) -> bool;

/// A letter from `A` to `Z` or from `a` to `z`.
pub open spec fn ascii_letter(c: char) -> bool {
    'A' <= c <= 'Z' || 'a' <= c <= 'z'
}

/// A character with the property Alphabetic. Of the ASCII characters these are
/// the letters, and the ellipsis is none.
pub open spec fn alphabetic(c: char) -> bool {
    if c <= '\u{7f}' {
        ascii_letter(c)
    } else {
        c != '\u{2026}' && unicode_alphabetic(c)
    }
}

/// `char::is_alphabetic` of std, which tells the property Alphabetic. The
/// answer depends on the character alone; of the ASCII characters it is true
/// of the letters, and it is false of the ellipsis, which is punctuation.
#[verifier::external_body]
fn is_alphabetic(c: char) -> (b: bool)
    ensures
        c <= '\u{7f}' ==> b == ascii_letter(c),
        c == '\u{2026}' ==> !b,
        c > '\u{7f}' && c != '\u{2026}' ==> b == unicode_alphabetic(c),
{
    c.is_alphabetic()
}

/// What a character counts as: a letter as `A`, a digit as `9`, white space
/// as a space, and everything else as itself.
pub open spec fn class_of(c: char) -> char {
    if alphabetic(c) {
        'A'
    } else if text::spec_is_digit(c) {
        '9'
    } else if text::white_space(c) {
        ' '
    } else {
        c
    }
}

/// The classes of the characters, with each run of `A`, `9` or space
/// collapsed to one.
pub open spec fn collapsed(s: Seq<char>) -> Seq<char>
    decreases s.len(),
{
    if s.len() == 0 {
        s
    } else {
        let before = collapsed(s.drop_last());
        let k = class_of(s.last());
        if (k == 'A' || k == '9' || k == ' ') && before.len() > 0 && before.last() == k {
            before
        } else {
            before.push(k)
        }
    }
}

pub const SKELETON_CAP: usize = 16;

/// The skeleton of a string: its collapsed classes, cut off with an ellipsis
/// behind sixteen characters.
pub open spec fn skeleton_of(s: Seq<char>) -> Seq<char> {
    let c = collapsed(s);
    if c.len() <= SKELETON_CAP {
        c
    } else {
        c.take(SKELETON_CAP as int).push('\u{2026}')
    }
}

proof fn lemma_collapsed_prefix(s: Seq<char>, n: int)
    requires
        0 <= n <= s.len(),
    ensures
        collapsed(s.take(n)).len() <= collapsed(s).len(),
        collapsed(s).take(collapsed(s.take(n)).len() as int) == collapsed(s.take(n)),
    decreases s.len(),
{
    if n == s.len() {
        assert(s.take(n) =~= s);
        assert(collapsed(s).take(collapsed(s).len() as int) =~= collapsed(s));
    } else {
        lemma_collapsed_prefix(s.drop_last(), n);
        assert(s.drop_last().take(n) =~= s.take(n));
        let m = collapsed(s.take(n)).len() as int;
        assert(collapsed(s).take(m) =~= collapsed(s.drop_last()).take(m));
    }
}

/// No two neighbours are the same collapsible class, and every letter, digit
/// and white space stands as its class.
pub open spec fn tight(k: Seq<char>) -> bool {
    &&& forall|i: int| 0 <= i < k.len() ==> class_of(#[trigger] k[i]) == k[i]
    &&& forall|i: int|
        0 < i < k.len() && (k[i] == 'A' || k[i] == '9' || k[i] == ' ') ==> k[i - 1]
            != #[trigger] k[i]
}

proof fn lemma_collapsed_is_tight(s: Seq<char>)
    ensures
        tight(collapsed(s)),
    decreases s.len(),
{
    if s.len() > 0 {
        lemma_collapsed_is_tight(s.drop_last());
        let before = collapsed(s.drop_last());
        let k = collapsed(s);
        assert forall|i: int|
            0 < i < k.len() && (k[i] == 'A' || k[i] == '9' || k[i] == ' ') implies k[i - 1]
            != #[trigger] k[i] by {
            if i < before.len() {
                assert(before[i - 1] != before[i]);
            }
        }
    }
}

proof fn lemma_tight_stays(k: Seq<char>)
    requires
        tight(k),
    ensures
        collapsed(k) == k,
    decreases k.len(),
{
    if k.len() > 0 {
        let front = k.drop_last();
        assert forall|i: int| 0 <= i < front.len() implies class_of(#[trigger] front[i])
            == front[i] by {
            assert(front[i] == k[i]);
        }
        assert forall|i: int|
            0 < i < front.len() && (front[i] == 'A' || front[i] == '9' || front[i] == ' ') implies
            front[i - 1] != #[trigger] front[i] by {
            assert(k[i - 1] != k[i]);
        }
        lemma_tight_stays(front);
        assert(class_of(k[k.len() - 1]) == k.last());
        assert(collapsed(k) =~= k);
    }
}

/// A skeleton is its own skeleton. It has at most seventeen characters, the
/// seventeenth an ellipsis; no two neighbours in it are both `A`, both `9` or
/// both spaces; and it has no other letter, ASCII digit or white space.
pub proof fn law_skeletons_are_stable(s: Seq<char>)
    ensures
        skeleton_of(skeleton_of(s)) == skeleton_of(s),
        skeleton_of(s).len() <= 17,
        skeleton_of(s).len() == 17 ==> skeleton_of(s)[16] == '\u{2026}',
        forall|i: int|
            0 < i < skeleton_of(s).len() && (skeleton_of(s)[i] == 'A' || skeleton_of(s)[i] == '9'
                || skeleton_of(s)[i] == ' ') ==> skeleton_of(s)[i - 1] != #[trigger] skeleton_of(
                s,
            )[i],
        forall|i: int|
            #![trigger skeleton_of(s)[i]]
            0 <= i < skeleton_of(s).len() ==> {
                let c = skeleton_of(s)[i];
                &&& alphabetic(c) ==> c == 'A'
                &&& text::spec_is_digit(c) ==> c == '9'
                &&& text::white_space(c) ==> c == ' '
            },
{
    let c = collapsed(s);
    let k = skeleton_of(s);
    lemma_collapsed_is_tight(s);
    if c.len() > SKELETON_CAP {
        assert(class_of('\u{2026}') == '\u{2026}');
        assert forall|i: int| 0 <= i < k.len() implies class_of(#[trigger] k[i]) == k[i] by {
            if i < 16 {
                assert(k[i] == c[i]);
            }
        }
        assert forall|i: int|
            0 < i < k.len() && (k[i] == 'A' || k[i] == '9' || k[i] == ' ') implies k[i - 1]
            != #[trigger] k[i] by {
            assert(c[i - 1] != c[i]);
        }
    }
    assert(tight(k));
    lemma_tight_stays(k);
    assert(skeleton_of(k) =~= k);
    assert forall|i: int| 0 <= i < k.len() implies {
        let x = #[trigger] k[i];
        &&& alphabetic(x) ==> x == 'A'
        &&& text::spec_is_digit(x) ==> x == '9'
        &&& text::white_space(x) ==> x == ' '
    } by {
        assert(class_of(k[i]) == k[i]);
    }
}

/// A fingerprint of the syntax of a string: finite in number and stable
/// across strings from the same syntactic family.
pub fn skeleton(s: &str) -> (r: String)
    ensures
        r@ == skeleton_of(s@),
{
    let chars = text::chars_of(s);
    let mut out: Vec<char> = Vec::new();
    let mut i: usize = 0;
    assert(chars@.take(0) =~= Seq::<char>::empty());
    while i < chars.len()
        invariant
            chars@ == s@,
            i <= chars@.len(),
            out@ == collapsed(chars@.take(i as int)),
            out@.len() <= SKELETON_CAP,
        decreases chars@.len() - i,
    {
        let c: char = chars[i];
        let class: char = if is_alphabetic(c) {
            'A'
        } else if text::is_digit(c) {
            '9'
        } else if text::is_white_space(c) {
            ' '
        } else {
            c
        };
        let ghost upto = chars@.take(i + 1);
        proof {
            assert(upto.drop_last() =~= chars@.take(i as int));
            assert(upto.last() == c);
        }
        let repeats: bool = (class == 'A' || class == '9' || class == ' ') && out.len() > 0 && out[out.len()
            - 1] == class;
        if !repeats {
            if out.len() >= SKELETON_CAP {
                proof {
                    lemma_collapsed_prefix(chars@, i + 1);
                    let m = collapsed(upto).len() as int;
                    assert(collapsed(upto) =~= out@.push(class));
                    assert(collapsed(chars@).take(SKELETON_CAP as int) =~= out@) by {
                        assert(collapsed(chars@).take(m) == out@.push(class));
                        assert forall|k: int| 0 <= k < SKELETON_CAP implies collapsed(chars@)[k]
                            == out@[k] by {
                            assert(collapsed(chars@).take(m)[k] == out@.push(class)[k]);
                        }
                    }
                }
                out.push('\u{2026}');
                return text::string_of_range(&out, 0, out.len());
            }
            out.push(class);
        }
        i += 1;
    }
    assert(chars@.take(i as int) =~= chars@);
    assert(out@.subrange(0, out@.len() as int) =~= out@);
    text::string_of_range(&out, 0, out.len())
}

// ---------------------------------------------------------------------
// Lengths
// ---------------------------------------------------------------------

/// The logarithm of a number to base two, rounded down; zero below two.
pub open spec fn log2(n: int) -> int
    decreases n,
{
    if n < 2 {
        0
    } else {
        1 + log2(n / 2)
    }
}

/// The class of a length: its logarithm, up to 31.
pub open spec fn bucket_of(len: int) -> int {
    if log2(len) <= 31 {
        log2(len)
    } else {
        31
    }
}

pub fn len_bucket(len: usize) -> (r: usize)
    ensures
        r == bucket_of(len as int),
        r < 32,
{
    let mut n: usize = len;
    let mut k: usize = 0;
    while n >= 2 && k < 31
        invariant
            k <= 31,
            log2(len as int) == k + log2(n as int),
        decreases n,
    {
        n = n / 2;
        k += 1;
    }
    proof {
        lemma_log2_nonneg(n as int);
    }
    k
}

pub proof fn lemma_log2_nonneg(n: int)
    ensures
        log2(n) >= 0,
    decreases n,
{
    if n >= 2 {
        lemma_log2_nonneg(n / 2);
    }
}

} // verus!
