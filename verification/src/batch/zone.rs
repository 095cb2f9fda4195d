//! Whether a timestamp says what zone it is in.
use crate::batch::ids;
use crate::text;
use vstd::prelude::*;
use vstd::string::*;
use vstd::utf8::*;

verus! {

pub open spec fn digit(b: u8) -> bool {
    0x30 <= b <= 0x39
}

pub open spec fn letter(b: u8) -> bool {
    0x41 <= b <= 0x5a || 0x61 <= b <= 0x7a
}

/// Space, tab, line feed, form feed, carriage return.
pub open spec fn blank(b: u8) -> bool {
    b == 0x20 || b == 0x09 || b == 0x0a || b == 0x0c || b == 0x0d
}

pub(crate) fn is_digit(b: u8) -> (r: bool)
    ensures
        r == digit(b),
{
    0x30 <= b && b <= 0x39
}

pub(crate) fn is_letter(b: u8) -> (r: bool)
    ensures
        r == letter(b),
{
    (0x41 <= b && b <= 0x5a) || (0x61 <= b && b <= 0x7a)
}

fn is_blank(b: u8) -> (r: bool)
    ensures
        r == blank(b),
{
    b == 0x20 || b == 0x09 || b == 0x0a || b == 0x0c || b == 0x0d
}

fn to_upper(b: u8) -> (r: u8)
    ensures
        r == ids::upper(b),
{
    if 0x61 <= b && b <= 0x7a {
        b - 0x20
    } else {
        b
    }
}

pub open spec fn digits_in(b: Seq<u8>) -> int
    decreases b.len(),
{
    if b.len() == 0 {
        0
    } else {
        digits_in(b.drop_last()) + (if digit(b.last()) {
            1int
        } else {
            0
        })
    }
}

/// Five digits or more, and nothing else but blanks: an epoch value, which
/// is in UTC.
pub open spec fn numeric(b: Seq<u8>) -> bool {
    &&& digits_in(b) >= 5
    &&& forall|i: int| 0 <= i < b.len() ==> digit(#[trigger] b[i]) || blank(b[i])
}

/// An offset at the end: a sign and hours and minutes, with a colon between
/// them or without.
pub open spec fn offset_at_end(b: Seq<u8>) -> bool {
    let n = b.len() as int;
    ||| n >= 6 && (b[n - 6] == 0x2b || b[n - 6] == 0x2d) && digit(b[n - 5]) && digit(b[n - 4])
        && b[n - 3] == 0x3a && digit(b[n - 2]) && digit(b[n - 1])
    ||| n >= 5 && (b[n - 5] == 0x2b || b[n - 5] == 0x2d) && digit(b[n - 4]) && digit(b[n - 3])
        && digit(b[n - 2]) && digit(b[n - 1])
}

/// A name at the end, without regard to case, with something before it that
/// is no letter.
pub open spec fn name_at_end(b: Seq<u8>, name: Seq<u8>) -> bool {
    let p = b.len() - name.len();
    &&& p > 0
    &&& !letter(b[p - 1])
    &&& forall|i: int| 0 <= i < name.len() ==> ids::upper(b[p + i]) == #[trigger] name[i]
}

/// The zone abbreviations that are recognized.
pub open spec fn zone_names() -> Seq<Seq<char>> {
    seq![
        "GMT"@,
        "UTC"@,
        "EST"@,
        "EDT"@,
        "PST"@,
        "PDT"@,
        "CST"@,
        "CDT"@,
        "MST"@,
        "MDT"@,
        "BST"@,
        "JST"@,
        "IST"@,
        "CET"@,
        "CEST"@,
    ]
}

/// A timezone marker at the end of the trimmed text: `Z`, an offset, or an
/// abbreviation; or an epoch value.
pub open spec fn zoned(b: Seq<u8>) -> bool {
    &&& b.len() > 0
    &&& {
        ||| numeric(b)
        ||| b.last() == 0x5a
        ||| b.last() == 0x7a
        ||| offset_at_end(b)
        ||| exists|k: int|
            0 <= k < zone_names().len() && name_at_end(b, encode_utf8(#[trigger] zone_names()[k]))
    }
}

fn is_numeric(b: &[u8]) -> (r: bool)
    ensures
        r == numeric(b@),
{
    let mut count: usize = 0;
    let mut i: usize = 0;
    assert(b@.take(0) =~= Seq::empty());
    while i < b.len()
        invariant
            i <= b@.len(),
            count <= i,
            count == digits_in(b@.take(i as int)),
            forall|k: int| 0 <= k < i ==> digit(#[trigger] b@[k]) || blank(b@[k]),
        decreases b@.len() - i,
    {
        assert(b@.take(i + 1).drop_last() =~= b@.take(i as int));
        let c: u8 = b[i];
        assert(b@[i as int] == c);
        if is_digit(c) {
            count += 1;
        } else if !is_blank(c) {
            return false;
        }
        i += 1;
    }
    assert(b@.take(i as int) =~= b@);
    count >= 5
}

fn has_offset(b: &[u8]) -> (r: bool)
    ensures
        r == offset_at_end(b@),
{
    let n: usize = b.len();
    if n >= 6 && (b[n - 6] == 0x2b || b[n - 6] == 0x2d) && is_digit(b[n - 5]) && is_digit(b[n - 4])
        && b[n - 3] == 0x3a && is_digit(b[n - 2]) && is_digit(b[n - 1]) {
        return true;
    }
    n >= 5 && (b[n - 5] == 0x2b || b[n - 5] == 0x2d) && is_digit(b[n - 4]) && is_digit(b[n - 3])
        && is_digit(b[n - 2]) && is_digit(b[n - 1])
}

fn ends_with_name(b: &[u8], name: &[u8]) -> (r: bool)
    ensures
        r == name_at_end(b@, name@),
{
    let n: usize = b.len();
    if n <= name.len() {
        return false;
    }
    let p: usize = n - name.len();
    if is_letter(b[p - 1]) {
        return false;
    }
    let mut i: usize = 0;
    while i < name.len()
        invariant
            i <= name@.len(),
            p + name@.len() == b@.len() == n,
            forall|k: int| 0 <= k < i ==> ids::upper(b@[p + k]) == #[trigger] name@[k],
        decreases name@.len() - i,
    {
        if to_upper(b[p + i]) != name[i] {
            assert(ids::upper(b@[p + i]) != name@[i as int]);
            return false;
        }
        i += 1;
    }
    true
}

fn ends_with_zone_name(b: &[u8]) -> (r: bool)
    ensures
        r == (exists|k: int|
            0 <= k < zone_names().len() && name_at_end(
                b@,
                encode_utf8(#[trigger] zone_names()[k]),
            )),
{
    let names: [&str; 15] = [
        "GMT", "UTC", "EST", "EDT", "PST", "PDT", "CST", "CDT", "MST", "MDT", "BST", "JST", "IST",
        "CET", "CEST",
    ];
    let mut k: usize = 0;
    while k < 15
        invariant
            k <= 15,
            names@.len() == 15,
            forall|i: int| 0 <= i < 15 ==> (#[trigger] names@[i])@ == zone_names()[i],
            forall|i: int|
                0 <= i < k ==> !name_at_end(b@, encode_utf8(#[trigger] zone_names()[i])),
        decreases 15 - k,
    {
        let name = names[k];
        assert(name@ == zone_names()[k as int]);
        if ends_with_name(b, name.as_bytes()) {
            return true;
        }
        k += 1;
    }
    false
}

/// True if the text ends with a recognizable timezone marker: `Z`, an offset
/// like `+HH:MM` or `+HHMM`, or a common abbreviation at a word boundary. Also
/// true for all-digit texts, which are epoch values.
pub fn has_explicit_zone(s: &str) -> (r: bool)
    ensures
        r == zoned(encode_utf8(text::trimmed(s@))),
{
    let t = text::trim(s);
    let b = t.as_str().as_bytes();
    let n: usize = b.len();
    if n == 0 {
        return false;
    }
    is_numeric(b) || b[n - 1] == 0x5a || b[n - 1] == 0x7a || has_offset(b)
        || ends_with_zone_name(b)
}

// ---------------------------------------------------------------------
// Laws
// ---------------------------------------------------------------------

/// An offset at the end names the zone, whatever stands before it: with either
/// sign, and with or without a colon between the hours and the minutes.
pub proof fn law_offsets_are_zones(t: Seq<u8>, sign: u8, h1: u8, h2: u8, m1: u8, m2: u8)
    requires
        sign == 0x2b || sign == 0x2d,
        0x30 <= h1 <= 0x39,
        0x30 <= h2 <= 0x39,
        0x30 <= m1 <= 0x39,
        0x30 <= m2 <= 0x39,
    ensures
        zoned(t + seq![sign, h1, h2, 0x3a, m1, m2]),
        zoned(t + seq![sign, h1, h2, m1, m2]),
{
    let colon = t + seq![sign, h1, h2, 0x3a, m1, m2];
    let plain = t + seq![sign, h1, h2, m1, m2];
    assert(offset_at_end(colon));
    assert(offset_at_end(plain));
}

/// A `Z` at the end, in either case, names the zone.
pub proof fn law_zulu_is_a_zone(t: Seq<u8>)
    ensures
        zoned(t.push(0x5a)),
        zoned(t.push(0x7a)),
{
}

/// The abbreviations of zones, in capitals.
pub open spec fn abbreviations() -> Seq<Seq<u8>> {
    seq![
        seq![0x47, 0x4d, 0x54],
        seq![0x55, 0x54, 0x43],
        seq![0x45, 0x53, 0x54],
        seq![0x45, 0x44, 0x54],
        seq![0x50, 0x53, 0x54],
        seq![0x50, 0x44, 0x54],
        seq![0x43, 0x53, 0x54],
        seq![0x43, 0x44, 0x54],
        seq![0x4d, 0x53, 0x54],
        seq![0x4d, 0x44, 0x54],
        seq![0x42, 0x53, 0x54],
        seq![0x4a, 0x53, 0x54],
        seq![0x49, 0x53, 0x54],
        seq![0x43, 0x45, 0x54],
        seq![0x43, 0x45, 0x53, 0x54],
    ]
}

proof fn lemma_abbreviation(name: &str, bytes: Seq<u8>)
    requires
        name@.len() == bytes.len(),
        forall|i: int| 0 <= i < bytes.len() ==> (#[trigger] bytes[i]) <= 0x7f && name@[i] as int
            == bytes[i],
    ensures
        encode_utf8(name@) == bytes,
{
    let s = name@;
    assert(is_ascii_chars(s)) by {
        assert forall|i: int| 0 <= i < s.len() implies '\0' <= #[trigger] s[i] <= '\u{7f}' by {
            assert(bytes[i] <= 0x7f);
        }
    }
    is_ascii_chars_encode_utf8(s);
    assert(encode_utf8(s) =~= bytes) by {
        assert forall|i: int| 0 <= i < s.len() implies encode_utf8(s)[i] == bytes[i] by {}
    }
}

proof fn lemma_abbreviations(k: int)
    requires
        0 <= k < 15,
    ensures
        encode_utf8(zone_names()[k]) == abbreviations()[k],
{
    reveal_strlit("GMT");
    reveal_strlit("UTC");
    reveal_strlit("EST");
    reveal_strlit("EDT");
    reveal_strlit("PST");
    reveal_strlit("PDT");
    reveal_strlit("CST");
    reveal_strlit("CDT");
    reveal_strlit("MST");
    reveal_strlit("MDT");
    reveal_strlit("BST");
    reveal_strlit("JST");
    reveal_strlit("IST");
    reveal_strlit("CET");
    reveal_strlit("CEST");
    lemma_abbreviation("GMT", abbreviations()[0]);
    lemma_abbreviation("UTC", abbreviations()[1]);
    lemma_abbreviation("EST", abbreviations()[2]);
    lemma_abbreviation("EDT", abbreviations()[3]);
    lemma_abbreviation("PST", abbreviations()[4]);
    lemma_abbreviation("PDT", abbreviations()[5]);
    lemma_abbreviation("CST", abbreviations()[6]);
    lemma_abbreviation("CDT", abbreviations()[7]);
    lemma_abbreviation("MST", abbreviations()[8]);
    lemma_abbreviation("MDT", abbreviations()[9]);
    lemma_abbreviation("BST", abbreviations()[10]);
    lemma_abbreviation("JST", abbreviations()[11]);
    lemma_abbreviation("IST", abbreviations()[12]);
    lemma_abbreviation("CET", abbreviations()[13]);
    lemma_abbreviation("CEST", abbreviations()[14]);
}

/// An abbreviation at the end names the zone where a byte that is no letter
/// stands before it: each letter of it may be large or small.
pub proof fn law_abbreviations_are_zones(t: Seq<u8>, word: Seq<u8>, k: int)
    requires
        t.len() > 0,
        !(0x41 <= t.last() <= 0x5a) && !(0x61 <= t.last() <= 0x7a),
        0 <= k < 15,
        word.len() == abbreviations()[k].len(),
        forall|i: int|
            0 <= i < word.len() ==> (#[trigger] word[i]) == abbreviations()[k][i] || word[i]
                == abbreviations()[k][i] + 0x20,
    ensures
        zoned(t + word),
{
    lemma_abbreviations(k);
    let name = encode_utf8(zone_names()[k]);
    let b = t + word;
    assert(name_at_end(b, name)) by {
        assert forall|i: int| 0 <= i < name.len() implies ids::upper(b[t.len() + i])
            == #[trigger] name[i] by {
            assert(b[t.len() + i] == word[i]);
        }
    }
    assert(name_at_end(b, encode_utf8(zone_names()[k])));
}

/// A text that ends in a digit, holds more than digits and blanks, and has no
/// sign five or six places from its end, names no zone.
pub proof fn law_naive_texts_name_no_zone(b: Seq<u8>, at: int)
    requires
        b.len() > 0,
        0x30 <= b.last() <= 0x39,
        0 <= at < b.len(),
        !(0x30 <= b[at] <= 0x39),
        b[at] != 0x20 && b[at] != 0x09 && b[at] != 0x0a && b[at] != 0x0c && b[at] != 0x0d,
        b.len() >= 5 ==> b[b.len() - 5] != 0x2b && b[b.len() - 5] != 0x2d,
        b.len() >= 6 ==> b[b.len() - 6] != 0x2b && b[b.len() - 6] != 0x2d,
    ensures
        !zoned(b),
{
    assert(!digit(b[at]) && !blank(b[at]));
    assert forall|k: int| 0 <= k < zone_names().len() implies !name_at_end(
        b,
        encode_utf8(#[trigger] zone_names()[k]),
    ) by {
        lemma_abbreviations(k);
        let name = encode_utf8(zone_names()[k]);
        let last = name.len() - 1;
        assert(0x41 <= name[last] <= 0x5a);
        if name_at_end(b, name) {
            assert(ids::upper(b[b.len() - name.len() + last]) == name[last]);
            assert(b[b.len() - name.len() + last] == b.last());
        }
    }
}

/// Five digits or more, and blanks, are a count of time, which is in UTC;
/// fewer digits are none.
pub proof fn law_counts_of_time_are_zoned(b: Seq<u8>)
    requires
        forall|i: int| 0 <= i < b.len() ==> 0x30 <= (#[trigger] b[i]) <= 0x39,
    ensures
        zoned(b) <==> b.len() >= 5,
{
    lemma_all_digits(b);
    assert forall|i: int| 0 <= i < b.len() implies digit(#[trigger] b[i]) || blank(b[i]) by {}
    assert forall|k: int| 0 <= k < zone_names().len() implies !name_at_end(
        b,
        encode_utf8(#[trigger] zone_names()[k]),
    ) by {
        lemma_abbreviations(k);
        let name = encode_utf8(zone_names()[k]);
        let last = name.len() - 1;
        assert(0x41 <= name[last] <= 0x5a);
        if name_at_end(b, name) {
            assert(ids::upper(b[b.len() - name.len() + last]) == name[last]);
        }
    }
}

proof fn lemma_all_digits(b: Seq<u8>)
    requires
        forall|i: int| 0 <= i < b.len() ==> 0x30 <= (#[trigger] b[i]) <= 0x39,
    ensures
        digits_in(b) == b.len(),
    decreases b.len(),
{
    if b.len() > 0 {
        let front = b.drop_last();
        assert forall|i: int| 0 <= i < front.len() implies 0x30 <= (#[trigger] front[i]) <= 0x39 by {
            assert(front[i] == b[i]);
        }
        lemma_all_digits(front);
        assert(0x30 <= b[b.len() - 1] <= 0x39);
    }
}

} // verus!
