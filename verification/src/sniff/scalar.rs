//! Bare-scalar recognition: strictly lexical, enough to tell `-1.5e3` from
//! `hello`, and nothing more.
use crate::sniff::brace;
use vstd::prelude::*;

verus! {

/// The bytes without the whitespace at either end.
pub open spec fn trimmed(s: Seq<u8>) -> Seq<u8>
    decreases s.len(),
{
    if s.len() > 0 && brace::spec_is_space(s[0]) {
        trimmed(s.drop_first())
    } else if s.len() > 0 && brace::spec_is_space(s.last()) {
        trimmed(s.drop_last())
    } else {
        s
    }
}

pub open spec fn is_digit(b: u8) -> bool {
    0x30 <= b <= 0x39
}

/// The end of the run of digits that starts at `i`.
pub open spec fn digits_end(s: Seq<u8>, i: int) -> int
    decreases s.len() - i,
{
    if 0 <= i < s.len() && is_digit(s[i]) {
        digits_end(s, i + 1)
    } else {
        i
    }
}

proof fn lemma_digits_end(s: Seq<u8>, i: int)
    requires
        0 <= i <= s.len(),
    ensures
        i <= digits_end(s, i) <= s.len(),
    decreases s.len() - i,
{
    if i < s.len() && is_digit(s[i]) {
        lemma_digits_end(s, i + 1);
    }
}

/// The end of a digit run of one digit or more, or nothing.
pub open spec fn digits(s: Seq<u8>, i: int) -> Option<int> {
    if digits_end(s, i) > i {
        Some(digits_end(s, i))
    } else {
        None
    }
}

/// The end of a fraction that starts at `i`; `i` where there is none.
pub open spec fn fraction(s: Seq<u8>, i: int) -> Option<int> {
    if i < s.len() && s[i] == 0x2e {
        digits(s, i + 1)
    } else {
        Some(i)
    }
}

/// The end of an exponent that starts at `i`; `i` where there is none.
pub open spec fn exponent(s: Seq<u8>, i: int) -> Option<int> {
    if i < s.len() && (s[i] == 0x65 || s[i] == 0x45) {
        if i + 1 < s.len() && (s[i + 1] == 0x2b || s[i + 1] == 0x2d) {
            digits(s, i + 2)
        } else {
            digits(s, i + 1)
        }
    } else {
        Some(i)
    }
}

/// The end of a whole number that starts at `i`: a zero, or digits that do not
/// start with one.
pub open spec fn whole(s: Seq<u8>, i: int) -> Option<int> {
    match digits(s, i) {
        Some(end) => if s[i] == 0x30 && end > i + 1 {
            None
        } else {
            Some(end)
        },
        None => None,
    }
}

/// A sign or none, a whole number, a fraction or none, an exponent or none.
pub open spec fn json_number(s: Seq<u8>) -> bool {
    match whole(
        s,
        if s.len() > 0 && s[0] == 0x2d {
            1
        } else {
            0
        },
    ) {
        None => false,
        Some(i) => match fraction(s, i) {
            None => false,
            Some(j) => exponent(s, j) == Some(s.len() as int),
        },
    }
}

/// A byte that may stand behind a backslash: a quote, a backslash, a slash, or
/// one of the letters b, f, n, r and t.
pub open spec fn escapable(b: u8) -> bool {
    b == 0x22 || b == 0x5c || b == 0x2f || b == 0x62 || b == 0x66 || b == 0x6e || b == 0x72 || b
        == 0x74
}

pub open spec fn is_hex(b: u8) -> bool {
    is_digit(b) || 0x41 <= b <= 0x46 || 0x61 <= b <= 0x66
}

/// Whether the string that goes on at `i` is closed by the last byte and by
/// none before it. Control characters have no place in a string, and a
/// backslash only before what it can escape.
pub open spec fn closes(s: Seq<u8>, i: int) -> bool
    decreases s.len() - i,
{
    if i < 0 || i >= s.len() {
        false
    } else if s[i] == 0x22 {
        i == s.len() - 1
    } else if s[i] < 0x20 {
        false
    } else if s[i] != 0x5c {
        closes(s, i + 1)
    } else if i + 1 < s.len() && escapable(s[i + 1]) {
        closes(s, i + 2)
    } else if i + 5 < s.len() && s[i + 1] == 0x75 && is_hex(s[i + 2]) && is_hex(s[i + 3]) && is_hex(
        s[i + 4],
    ) && is_hex(s[i + 5]) {
        closes(s, i + 6)
    } else {
        false
    }
}

/// A JSON literal: a word, a string or a number.
pub open spec fn json_scalar(s: Seq<u8>) -> bool {
    ||| s == seq![0x74u8, 0x72, 0x75, 0x65]
    ||| s == seq![0x66u8, 0x61, 0x6c, 0x73, 0x65]
    ||| s == seq![0x6eu8, 0x75, 0x6c, 0x6c]
    ||| if s.len() > 0 && s[0] == 0x22 {
        closes(s, 1)
    } else {
        json_number(s)
    }
}

pub fn trim_ascii(s: &Vec<u8>) -> (r: (usize, usize))
    ensures
        r.0 <= r.1 <= s@.len(),
        s@.subrange(r.0 as int, r.1 as int) == trimmed(s@),
{
    let mut a: usize = 0;
    let mut b: usize = s.len();
    assert(s@.subrange(0, s@.len() as int) =~= s@);
    while a < b && brace::is_space(s[a])
        invariant
            a <= b <= s@.len(),
            trimmed(s@.subrange(a as int, b as int)) == trimmed(s@),
        decreases b - a,
    {
        assert(s@.subrange(a as int, b as int).drop_first() =~= s@.subrange(a + 1, b as int));
        a += 1;
    }
    while a < b && brace::is_space(s[b - 1])
        invariant
            a <= b <= s@.len(),
            trimmed(s@.subrange(a as int, b as int)) == trimmed(s@),
            a < b ==> !brace::spec_is_space(s@[a as int]),
        decreases b - a,
    {
        assert(s@.subrange(a as int, b as int).drop_last() =~= s@.subrange(a as int, b - 1));
        b -= 1;
    }
    (a, b)
}

fn scan_digits(s: &Vec<u8>, from: usize) -> (r: usize)
    requires
        from <= s@.len(),
    ensures
        r == digits_end(s@, from as int),
        from <= r <= s@.len(),
{
    let mut i: usize = from;
    while i < s.len() && 0x30 <= s[i] && s[i] <= 0x39
        invariant
            from <= i <= s@.len(),
            digits_end(s@, from as int) == digits_end(s@, i as int),
        decreases s@.len() - i,
    {
        i += 1;
    }
    i
}

pub fn is_json_number(s: &Vec<u8>) -> (b: bool)
    ensures
        b == json_number(s@),
{
    let start: usize = if s.len() > 0 && s[0] == 0x2d {
        1
    } else {
        0
    };
    let mut i: usize = scan_digits(s, start);
    if i == start || (s[start] == 0x30 && i > start + 1) {
        return false;
    }
    if i < s.len() && s[i] == 0x2e {
        let from: usize = i + 1;
        i = scan_digits(s, from);
        if i == from {
            return false;
        }
    }
    if i < s.len() && (s[i] == 0x65 || s[i] == 0x45) {
        let mut from: usize = i + 1;
        if from < s.len() && (s[from] == 0x2b || s[from] == 0x2d) {
            from += 1;
        }
        i = scan_digits(s, from);
        if i == from {
            return false;
        }
    }
    i == s.len()
}

fn is_word(s: &Vec<u8>, word: &[u8]) -> (b: bool)
    ensures
        b == (s@ == word@),
{
    if s.len() != word.len() {
        return false;
    }
    let mut i: usize = 0;
    while i < s.len()
        invariant
            i <= s@.len() == word@.len(),
            forall|k: int| 0 <= k < i ==> s@[k] == #[trigger] word@[k],
        decreases s@.len() - i,
    {
        if s[i] != word[i] {
            return false;
        }
        i += 1;
    }
    assert(s@ =~= word@);
    true
}

fn can_escape(b: u8) -> (r: bool)
    ensures
        r == escapable(b),
{
    b == 0x22 || b == 0x5c || b == 0x2f || b == 0x62 || b == 0x66 || b == 0x6e || b == 0x72 || b
        == 0x74
}

fn is_hex_digit(b: u8) -> (r: bool)
    ensures
        r == is_hex(b),
{
    (0x30 <= b && b <= 0x39) || (0x41 <= b && b <= 0x46) || (0x61 <= b && b <= 0x66)
}

/// Whether the string that begins with the first byte is closed by the last.
fn is_closed(s: &Vec<u8>) -> (b: bool)
    requires
        s@.len() > 0,
    ensures
        b == closes(s@, 1),
{
    let n: usize = s.len();
    let mut i: usize = 1;
    while i < n
        invariant
            1 <= i,
            n == s@.len(),
            closes(s@, i as int) == closes(s@, 1),
        decreases n - i,
    {
        let c: u8 = s[i];
        if c == 0x22 {
            return i == n - 1;
        }
        if c < 0x20 {
            return false;
        }
        let left: usize = n - i;
        if c != 0x5c {
            i += 1;
        } else if left > 1 && can_escape(s[i + 1]) {
            i += 2;
        } else if left > 5 && s[i + 1] == 0x75 && is_hex_digit(s[i + 2]) && is_hex_digit(s[i + 3])
            && is_hex_digit(s[i + 4]) && is_hex_digit(s[i + 5]) {
            i += 6;
        } else {
            return false;
        }
    }
    false
}

pub fn is_json_scalar(s: &Vec<u8>) -> (b: bool)
    ensures
        b == json_scalar(s@),
{
    let t: [u8; 4] = [0x74, 0x72, 0x75, 0x65];
    let f: [u8; 5] = [0x66, 0x61, 0x6c, 0x73, 0x65];
    let n: [u8; 4] = [0x6e, 0x75, 0x6c, 0x6c];
    assert(t@ =~= seq![0x74u8, 0x72, 0x75, 0x65]);
    assert(f@ =~= seq![0x66u8, 0x61, 0x6c, 0x73, 0x65]);
    assert(n@ =~= seq![0x6eu8, 0x75, 0x6c, 0x6c]);
    if is_word(s, t.as_slice()) || is_word(s, f.as_slice()) || is_word(s, n.as_slice()) {
        return true;
    }
    if s.len() > 0 && s[0] == 0x22 {
        is_closed(s)
    } else {
        is_json_number(s)
    }
}

} // verus!
