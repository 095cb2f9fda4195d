//! Characters, digits and text: the small vocabulary that the parsers and
//! printers of this crate share.
use vstd::prelude::*;
use vstd::utf8::*;

verus! {

/// `String::push` appends the given `char` to the end of the string.
pub assume_specification[ std::string::String::push ](s: &mut std::string::String, c: char)
    ensures
        final(s)@ == old(s)@.push(c),
;

/// `char::from_u32` is `None` exactly where the number is no Unicode scalar
/// value, and otherwise the character with that number.
pub assume_specification[ char::from_u32 ](i: u32) -> (r: Option<char>)
    ensures
        r == (if is_scalar(i) {
            Some(i as char)
        } else {
            None
        }),
;

// ---------------------------------------------------------------------
// Classes of characters
// ---------------------------------------------------------------------

pub open spec fn spec_is_digit(c: char) -> bool {
    '0' <= c && c <= '9'
}

pub open spec fn spec_is_alpha(c: char) -> bool {
    ('a' <= c && c <= 'z') || ('A' <= c && c <= 'Z')
}

pub open spec fn spec_is_hex(c: char) -> bool {
    spec_is_digit(c) || ('a' <= c && c <= 'f') || ('A' <= c && c <= 'F')
}

/// A letter or an underscore: what an identifier starts with.
pub open spec fn spec_is_ident_start(c: char) -> bool {
    spec_is_alpha(c) || c == '_'
}

/// A letter, a digit or an underscore: what an identifier goes on with.
pub open spec fn spec_is_ident_char(c: char) -> bool {
    spec_is_alpha(c) || spec_is_digit(c) || c == '_'
}

pub fn is_digit(c: char) -> (b: bool)
    ensures
        b == spec_is_digit(c),
{
    '0' <= c && c <= '9'
}

pub fn is_alpha(c: char) -> (b: bool)
    ensures
        b == spec_is_alpha(c),
{
    ('a' <= c && c <= 'z') || ('A' <= c && c <= 'Z')
}

pub fn is_hex(c: char) -> (b: bool)
    ensures
        b == spec_is_hex(c),
{
    is_digit(c) || ('a' <= c && c <= 'f') || ('A' <= c && c <= 'F')
}

pub fn is_ident_start(c: char) -> (b: bool)
    ensures
        b == spec_is_ident_start(c),
{
    is_alpha(c) || c == '_'
}

pub fn is_ident_char(c: char) -> (b: bool)
    ensures
        b == spec_is_ident_char(c),
{
    is_alpha(c) || is_digit(c) || c == '_'
}

// ---------------------------------------------------------------------
// Strings and their characters
// ---------------------------------------------------------------------

/// The characters of a string, in order.
pub fn chars_of(s: &str) -> (v: Vec<char>)
    ensures
        v@ == s@,
{
    let mut v: Vec<char> = Vec::new();
    for c in it: s.chars()
        invariant
            v@ == it.seq().take(it.index() as int),
            it.seq() == s@,
    {
        v.push(c);
        assert(v@ =~= it.seq().take(it.index() + 1));
    }
    assert(v@ =~= s@);
    v
}

/// The string made of the characters `v[from..to]`.
pub fn string_of_range(v: &Vec<char>, from: usize, to: usize) -> (s: String)
    requires
        from <= to <= v@.len(),
    ensures
        s@ == v@.subrange(from as int, to as int),
{
    let mut s: String = String::new();
    let mut i: usize = from;
    while i < to
        invariant
            from <= i <= to <= v@.len(),
            s@ == v@.subrange(from as int, i as int),
        decreases to - i,
    {
        s.push(v[i]);
        i += 1;
        assert(s@ =~= v@.subrange(from as int, i as int));
    }
    s
}

// ---------------------------------------------------------------------
// Runs and numerals
// ---------------------------------------------------------------------

/// The end of the longest run of characters of the class `p` that starts at `i`.
pub open spec fn run_end(s: Seq<char>, i: int, p: spec_fn(char) -> bool) -> int
    decreases s.len() - i,
{
    if 0 <= i < s.len() && p(s[i]) {
        run_end(s, i + 1, p)
    } else {
        i
    }
}

pub proof fn lemma_run_end(s: Seq<char>, i: int, p: spec_fn(char) -> bool)
    requires
        0 <= i <= s.len(),
    ensures
        i <= run_end(s, i, p) <= s.len(),
        forall|k: int| i <= k < run_end(s, i, p) ==> p(#[trigger] s[k]),
        run_end(s, i, p) < s.len() ==> !p(s[run_end(s, i, p)]),
    decreases s.len() - i,
{
    if i < s.len() && p(s[i]) {
        lemma_run_end(s, i + 1, p);
    }
}

/// A run that is seen to end at `j` ends at `j`.
pub proof fn lemma_run_end_is(s: Seq<char>, i: int, j: int, p: spec_fn(char) -> bool)
    requires
        0 <= i <= j <= s.len(),
        forall|k: int| i <= k < j ==> p(#[trigger] s[k]),
        j < s.len() ==> !p(s[j]),
    ensures
        run_end(s, i, p) == j,
    decreases j - i,
{
    if i < j {
        lemma_run_end_is(s, i + 1, j, p);
    }
}

/// The value of a hexadecimal digit; a decimal digit is one of them.
pub open spec fn digit_value(c: char) -> int {
    if '0' <= c && c <= '9' {
        c as int - '0' as int
    } else if 'a' <= c && c <= 'f' {
        c as int - 'a' as int + 10
    } else {
        c as int - 'A' as int + 10
    }
}

/// The number that the digits `s` write in the given base.
pub open spec fn numeral_value(s: Seq<char>, base: int) -> int
    decreases s.len(),
{
    if s.len() == 0 {
        0
    } else {
        numeral_value(s.drop_last(), base) * base + digit_value(s.last())
    }
}

/// The digit of the given value, in lower case.
pub open spec fn digit_char(d: int) -> char {
    if d < 10 {
        (d + '0' as int) as char
    } else {
        (d - 10 + 'a' as int) as char
    }
}

/// The numeral of `n` in the given base, without leading zeros.
pub open spec fn numeral(n: int, base: int) -> Seq<char>
    decreases n,
    when base >= 2
{
    if n < base {
        seq![digit_char(n)]
    } else {
        proof {
            assert(0 <= n / base < n) by (nonlinear_arith)
                requires
                    n >= base,
                    base >= 2,
            ;
        }
        numeral(n / base, base).push(digit_char(n % base))
    }
}

pub proof fn lemma_numeral(n: int, base: int)
    requires
        0 <= n,
        2 <= base <= 16,
    ensures
        numeral(n, base).len() >= 1,
        forall|k: int| 0 <= k < numeral(n, base).len() ==> spec_is_hex(#[trigger] numeral(n, base)[k]),
        base <= 10 ==> forall|k: int|
            0 <= k < numeral(n, base).len() ==> spec_is_digit(#[trigger] numeral(n, base)[k]),
        numeral_value(numeral(n, base), base) == n,
    decreases n,
{
    if n < base {
        let t = numeral(n, base);
        assert(t.drop_last() =~= Seq::<char>::empty());
        assert(numeral_value(t.drop_last(), base) == 0);
        assert(digit_value(t.last()) == n);
        assert(0 * base == 0);
    } else {
        assert(0 <= n / base < n) by (nonlinear_arith)
            requires
                n >= base,
                base >= 2,
        ;
        lemma_numeral(n / base, base);
        let t = numeral(n, base);
        assert(t.drop_last() =~= numeral(n / base, base));
        assert(0 <= n % base < base) by (nonlinear_arith)
            requires
                base >= 2,
        ;
        assert(digit_value(t.last()) == n % base);
        assert((n / base) * base + n % base == n) by (nonlinear_arith)
            requires
                base >= 2,
        ;
    }
}

/// The numeral of a number in base 2 to 16, in lower case: the text that
/// `{}` prints for base 10 and `{:x}` for base 16.
pub fn numeral_of(n: u64, base: u64) -> (v: Vec<char>)
    requires
        2 <= base <= 16,
    ensures
        v@ == numeral(n as int, base as int),
    decreases n,
{
    if n < base {
        let mut v: Vec<char> = Vec::new();
        v.push(digit_of(n));
        assert(v@ =~= numeral(n as int, base as int));
        v
    } else {
        assert(n / base < n) by (nonlinear_arith)
            requires
                n >= base,
                base >= 2,
        ;
        assert(0 <= n % base < base) by (nonlinear_arith)
            requires
                base >= 2,
        ;
        let mut v = numeral_of(n / base, base);
        v.push(digit_of(n % base));
        v
    }
}

fn digit_of(d: u64) -> (c: char)
    requires
        d < 16,
    ensures
        c == digit_char(d as int),
{
    if d < 10 {
        (d as u8 + 48) as char
    } else {
        (d as u8 - 10 + 97) as char
    }
}

/// Appends the characters `v` to `out`.
pub fn push_chars(out: &mut String, v: &Vec<char>)
    ensures
        final(out)@ == old(out)@ + v@,
{
    let mut i: usize = 0;
    while i < v.len()
        invariant
            i <= v@.len(),
            out@ == old(out)@ + v@.take(i as int),
        decreases v@.len() - i,
    {
        out.push(v[i]);
        i += 1;
        assert(v@.take(i as int) =~= v@.take(i - 1).push(v@[i - 1]));
    }
    assert(v@.take(i as int) =~= v@);
}

/// Appends the decimal numeral of `n` to `out`.
pub fn push_decimal(out: &mut String, n: u64)
    ensures
        final(out)@ == old(out)@ + numeral(n as int, 10),
{
    let v = numeral_of(n, 10);
    push_chars(out, &v);
}

// ---------------------------------------------------------------------
// White space at the ends
// ---------------------------------------------------------------------

/// A character with the Unicode property White_Space.
pub open spec fn white_space(c: char) -> bool {
    ||| '\u{9}' <= c <= '\u{d}'
    ||| c == '\u{20}'
    ||| c == '\u{85}'
    ||| c == '\u{a0}'
    ||| c == '\u{1680}'
    ||| '\u{2000}' <= c <= '\u{200a}'
    ||| c == '\u{2028}'
    ||| c == '\u{2029}'
    ||| c == '\u{202f}'
    ||| c == '\u{205f}'
    ||| c == '\u{3000}'
}

pub fn is_white_space(c: char) -> (b: bool)
    ensures
        b == white_space(c),
{
    ('\u{9}' <= c && c <= '\u{d}') || c == '\u{20}' || c == '\u{85}' || c == '\u{a0}' || c
        == '\u{1680}' || ('\u{2000}' <= c && c <= '\u{200a}') || c == '\u{2028}' || c == '\u{2029}'
        || c == '\u{202f}' || c == '\u{205f}' || c == '\u{3000}'
}

/// Where the white space at the start ends.
pub open spec fn trim_start(s: Seq<char>, i: int) -> int
    decreases s.len() - i,
{
    if 0 <= i < s.len() && white_space(s[i]) {
        trim_start(s, i + 1)
    } else {
        i
    }
}

/// Where the white space at the end begins, at or before `n`.
pub open spec fn trim_end(s: Seq<char>, n: int) -> int
    decreases n,
{
    if 0 < n <= s.len() && white_space(s[n - 1]) {
        trim_end(s, n - 1)
    } else {
        n
    }
}

/// The text without the white space at its ends.
pub open spec fn trimmed(s: Seq<char>) -> Seq<char> {
    let from = trim_start(s, 0);
    let to = trim_end(s, s.len() as int);
    if from <= to {
        s.subrange(from, to)
    } else {
        Seq::empty()
    }
}

pub fn trim(s: &str) -> (r: String)
    ensures
        r@ == trimmed(s@),
{
    let v = chars_of(s);
    let mut from: usize = 0;
    while from < v.len() && is_white_space(v[from])
        invariant
            from <= v@.len(),
            trim_start(v@, 0) == trim_start(v@, from as int),
        decreases v@.len() - from,
    {
        from += 1;
    }
    let mut to: usize = v.len();
    while to > 0 && is_white_space(v[to - 1])
        invariant
            to <= v@.len(),
            trim_end(v@, v@.len() as int) == trim_end(v@, to as int),
        decreases to,
    {
        to -= 1;
    }
    if from <= to {
        string_of_range(&v, from, to)
    } else {
        String::new()
    }
}

proof fn lemma_trim_start(s: Seq<char>, i: int)
    requires
        0 <= i <= s.len(),
    ensures
        i <= trim_start(s, i) <= s.len(),
        forall|k: int| i <= k < trim_start(s, i) ==> white_space(#[trigger] s[k]),
        trim_start(s, i) < s.len() ==> !white_space(s[trim_start(s, i)]),
    decreases s.len() - i,
{
    if i < s.len() && white_space(s[i]) {
        lemma_trim_start(s, i + 1);
    }
}

proof fn lemma_trim_end(s: Seq<char>, n: int)
    requires
        0 <= n <= s.len(),
    ensures
        0 <= trim_end(s, n) <= n,
        forall|k: int| trim_end(s, n) <= k < n ==> white_space(#[trigger] s[k]),
        trim_end(s, n) > 0 ==> !white_space(s[trim_end(s, n) - 1]),
    decreases n,
{
    if n > 0 && white_space(s[n - 1]) {
        lemma_trim_end(s, n - 1);
    }
}

/// White space before a text and behind it, whatever there is of it, is taken
/// off, and nothing else: what neither starts nor ends with white space comes
/// out as it is.
pub proof fn law_trimming_takes_off_the_ends(before: Seq<char>, t: Seq<char>, behind: Seq<char>)
    requires
        forall|i: int| 0 <= i < before.len() ==> white_space(#[trigger] before[i]),
        forall|i: int| 0 <= i < behind.len() ==> white_space(#[trigger] behind[i]),
        t.len() > 0 ==> !white_space(t[0]) && !white_space(t.last()),
    ensures
        trimmed(before + t + behind) == t,
{
    let s = before + t + behind;
    lemma_trim_start(s, 0);
    lemma_trim_end(s, s.len() as int);
    let from = trim_start(s, 0);
    let to = trim_end(s, s.len() as int);
    let n = before.len() as int;
    if t.len() == 0 {
        assert forall|k: int| 0 <= k < s.len() implies white_space(#[trigger] s[k]) by {
            if k < n {
                assert(s[k] == before[k]);
            } else {
                assert(s[k] == behind[k - n]);
            }
        }
        if from < s.len() {
            assert(white_space(s[from]));
        }
        if to > 0 {
            assert(white_space(s[to - 1]));
        }
        assert(trimmed(s) =~= t);
    } else {
        assert(s[n] == t[0]);
        assert(s[n + t.len() - 1] == t.last());
        if from < n {
            assert(s[from] == before[from]);
        }
        if to > n + t.len() {
            assert(s[to - 1] == behind[to - 1 - n - t.len()]);
        }
        assert(from == n && to == n + t.len());
        assert(trimmed(s) =~= t);
    }
}

/// Of the ASCII characters, the space and those from the tab to the carriage
/// return are white space, and no other; nor is any letter or digit.
pub proof fn law_ascii_white_space(c: char)
    requires
        c <= '\u{7f}',
    ensures
        white_space(c) <==> c == ' ' || c == '\t' || c == '\n' || c == '\u{b}' || c == '\u{c}' || c
            == '\r',
{
}

} // verus!
