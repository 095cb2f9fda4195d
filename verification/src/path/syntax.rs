//! The text form of paths and path patterns, as mathematics: what a pattern
//! is written as, and what a text is read as.
use crate::path::ParseErrorKind;
use crate::text;
use vstd::prelude::*;
use vstd::utf8::*;

verus! {

/// One step of a path or of a pattern. A path is a pattern without the two
/// wildcards.
pub enum StepView {
    Field(Seq<char>),
    AnyField,
    Index(u32),
    AnyIndex,
}

pub struct ErrorView {
    pub pos: int,
    pub kind: ParseErrorKind,
}

pub open spec fn is_wildcard(s: StepView) -> bool {
    s is AnyField || s is AnyIndex
}

pub open spec fn has_wildcard(steps: Seq<StepView>) -> bool {
    exists|k: int| 0 <= k < steps.len() && is_wildcard(#[trigger] steps[k])
}

// ---------------------------------------------------------------------
// Writing
// ---------------------------------------------------------------------

/// A name that is written as it is: a letter or an underscore, followed by
/// letters, digits and underscores.
pub open spec fn bare_ident(s: Seq<char>) -> bool {
    &&& s.len() > 0
    &&& text::spec_is_ident_start(s[0])
    &&& forall|k: int| 0 <= k < s.len() ==> text::spec_is_ident_char(#[trigger] s[k])
}

/// What stands for one character between quotes.
pub open spec fn escaped(c: char) -> Seq<char> {
    if c == '"' {
        seq!['\\', '"']
    } else if c == '\\' {
        seq!['\\', '\\']
    } else if c == '\n' {
        seq!['\\', 'n']
    } else if c == '\t' {
        seq!['\\', 't']
    } else if c == '\r' {
        seq!['\\', 'r']
    } else if c == '\0' {
        seq!['\\', '0']
    } else if (c as u32) < 0x20 {
        seq!['\\', 'u', '{'] + text::numeral(c as int, 16) + seq!['}']
    } else {
        seq![c]
    }
}

pub open spec fn escaped_all(s: Seq<char>) -> Seq<char>
    decreases s.len(),
{
    if s.len() == 0 {
        Seq::empty()
    } else {
        escaped_all(s.drop_last()) + escaped(s.last())
    }
}

pub open spec fn show_name(s: Seq<char>) -> Seq<char> {
    if bare_ident(s) {
        s
    } else {
        seq!['"'] + escaped_all(s) + seq!['"']
    }
}

/// The dot before a field; the first field uses the dot of the root.
pub open spec fn separator(first: bool) -> Seq<char> {
    if first {
        Seq::empty()
    } else {
        seq!['.']
    }
}

pub open spec fn show_step(s: StepView, first: bool) -> Seq<char> {
    match s {
        StepView::Field(name) => separator(first) + show_name(name),
        StepView::AnyField => separator(first) + seq!['*'],
        StepView::Index(i) => seq!['['] + text::numeral(i as int, 10) + seq![']'],
        StepView::AnyIndex => seq!['[', '*', ']'],
    }
}

/// The text of the first `n` steps, after the dot of the root.
pub open spec fn show_steps(steps: Seq<StepView>, n: int) -> Seq<char>
    decreases n,
{
    if n <= 0 {
        Seq::empty()
    } else {
        show_steps(steps, n - 1) + show_step(steps[n - 1], n == 1)
    }
}

/// The text of a path or pattern.
pub open spec fn show(steps: Seq<StepView>) -> Seq<char> {
    seq!['.'] + show_steps(steps, steps.len() as int)
}

// ---------------------------------------------------------------------
// Reading
// ---------------------------------------------------------------------

/// The number of bytes before character `i` of the text.
pub open spec fn offset(s: Seq<char>, i: int) -> int {
    encode_utf8(s.take(i)).len() as int
}

/// One byte past character `i`, or the end of the text.
pub open spec fn offset_past(s: Seq<char>, i: int) -> int {
    if i < s.len() {
        offset(s, i) + 1
    } else {
        offset(s, i)
    }
}

/// The first byte of a character's encoding, as the character of that number.
pub open spec fn lead(c: char) -> char {
    encode_scalar(c as u32)[0] as char
}

pub open spec fn fail<T>(s: Seq<char>, i: int, kind: ParseErrorKind) -> Result<T, ErrorView> {
    Err(ErrorView { pos: offset(s, i), kind })
}

/// The failure at character `i`, where the text holds something else than
/// what may stand there, or has ended.
pub open spec fn unexpected<T>(s: Seq<char>, i: int) -> Result<T, ErrorView> {
    if i < s.len() {
        fail(s, i, ParseErrorKind::UnexpectedChar(lead(s[i])))
    } else {
        fail(s, i, ParseErrorKind::UnexpectedEnd)
    }
}

pub open spec fn digit_class() -> spec_fn(char) -> bool {
    |c: char| text::spec_is_digit(c)
}

pub open spec fn hex_class() -> spec_fn(char) -> bool {
    |c: char| text::spec_is_hex(c)
}

pub open spec fn ident_class() -> spec_fn(char) -> bool {
    |c: char| text::spec_is_ident_char(c)
}

/// Reads `{digits}` after `\u`.
pub open spec fn read_unicode(s: Seq<char>, i: int) -> Result<(char, int), ErrorView> {
    let bad = ParseErrorKind::InvalidUnicodeEscape;
    if i >= s.len() || s[i] != '{' {
        Err(ErrorView { pos: offset_past(s, i), kind: bad })
    } else {
        let end = text::run_end(s, i + 1, hex_class());
        let value = text::numeral_value(s.subrange(i + 1, end), 16);
        if end == i + 1 || value > u32::MAX {
            fail(s, end, bad)
        } else if end >= s.len() || s[end] != '}' {
            Err(ErrorView { pos: offset_past(s, end), kind: bad })
        } else if !is_scalar(value as u32) {
            fail(s, end + 1, bad)
        } else {
            Ok((value as char, end + 1))
        }
    }
}

/// Reads what follows a backslash.
pub open spec fn read_escape(s: Seq<char>, i: int) -> Result<(char, int), ErrorView> {
    if i >= s.len() {
        fail(s, i, ParseErrorKind::UnterminatedString)
    } else if s[i] == '"' || s[i] == '\\' {
        Ok((s[i], i + 1))
    } else if s[i] == 'n' {
        Ok(('\n', i + 1))
    } else if s[i] == 't' {
        Ok(('\t', i + 1))
    } else if s[i] == 'r' {
        Ok(('\r', i + 1))
    } else if s[i] == '0' {
        Ok(('\0', i + 1))
    } else if s[i] == 'u' {
        read_unicode(s, i + 1)
    } else {
        fail(s, i, ParseErrorKind::InvalidEscape(lead(s[i])))
    }
}

pub proof fn lemma_read_escape_advances(s: Seq<char>, i: int)
    requires
        0 <= i,
        read_escape(s, i) is Ok,
    ensures
        i < read_escape(s, i)->Ok_0.1 <= s.len(),
{
    if s[i] == 'u' && i + 1 < s.len() {
        text::lemma_run_end(s, i + 2, hex_class());
    }
}

/// Reads a quoted name from behind its opening quote, after `acc` was read.
pub open spec fn read_quoted(s: Seq<char>, i: int, acc: Seq<char>) -> Result<
    (Seq<char>, int),
    ErrorView,
>
    decreases s.len() - i,
    when 0 <= i
{
    if i >= s.len() {
        fail(s, i, ParseErrorKind::UnterminatedString)
    } else if s[i] == '"' {
        Ok((acc, i + 1))
    } else if s[i] == '\\' {
        match read_escape(s, i + 1) {
            Err(e) => Err(e),
            Ok((c, j)) => {
                proof {
                    lemma_read_escape_advances(s, i + 1);
                }
                read_quoted(s, j, acc.push(c))
            },
        }
    } else {
        read_quoted(s, i + 1, acc.push(s[i]))
    }
}

/// Reads a field name or `*`.
pub open spec fn read_field(s: Seq<char>, i: int) -> Result<(StepView, int), ErrorView> {
    if i < s.len() && s[i] == '*' {
        Ok((StepView::AnyField, i + 1))
    } else if i < s.len() && s[i] == '"' {
        match read_quoted(s, i + 1, Seq::empty()) {
            Err(e) => Err(e),
            Ok((name, j)) => Ok((StepView::Field(name), j)),
        }
    } else if i < s.len() && text::spec_is_ident_start(s[i]) {
        let end = text::run_end(s, i, ident_class());
        Ok((StepView::Field(s.subrange(i, end)), end))
    } else {
        unexpected(s, i)
    }
}

/// Reads the closing bracket of an index step.
pub open spec fn read_close(s: Seq<char>, step: StepView, i: int) -> Result<
    (StepView, int),
    ErrorView,
> {
    if i < s.len() && s[i] == ']' {
        Ok((step, i + 1))
    } else {
        unexpected(s, i)
    }
}

/// Reads an index or `*`, and the bracket that closes it.
pub open spec fn read_index(s: Seq<char>, i: int) -> Result<(StepView, int), ErrorView> {
    if i < s.len() && s[i] == '*' {
        read_close(s, StepView::AnyIndex, i + 1)
    } else if i < s.len() && text::spec_is_digit(s[i]) {
        let end = text::run_end(s, i, digit_class());
        let value = text::numeral_value(s.subrange(i, end), 10);
        if value > u32::MAX {
            fail(s, i, ParseErrorKind::InvalidNumber)
        } else {
            read_close(s, StepView::Index(value as u32), end)
        }
    } else {
        unexpected(s, i)
    }
}

/// Reads the step that starts at character `i`.
pub open spec fn read_step(s: Seq<char>, i: int, first: bool) -> Result<(StepView, int), ErrorView> {
    if s[i] == '.' && !first {
        read_field(s, i + 1)
    } else if s[i] == '[' {
        read_index(s, i + 1)
    } else if first && (text::spec_is_ident_start(s[i]) || s[i] == '"' || s[i] == '*') {
        read_field(s, i)
    } else {
        unexpected(s, i)
    }
}

pub proof fn lemma_read_quoted_advances(s: Seq<char>, i: int, acc: Seq<char>)
    requires
        0 <= i,
        read_quoted(s, i, acc) is Ok,
    ensures
        i < read_quoted(s, i, acc)->Ok_0.1 <= s.len(),
    decreases s.len() - i,
{
    if i < s.len() && s[i] == '\\' {
        if let Ok((c, j)) = read_escape(s, i + 1) {
            lemma_read_escape_advances(s, i + 1);
            lemma_read_quoted_advances(s, j, acc.push(c));
        }
    } else if i < s.len() && s[i] != '"' {
        lemma_read_quoted_advances(s, i + 1, acc.push(s[i]));
    }
}

pub proof fn lemma_read_step_advances(s: Seq<char>, i: int, first: bool)
    requires
        0 <= i < s.len(),
        read_step(s, i, first) is Ok,
    ensures
        i < read_step(s, i, first)->Ok_0.1 <= s.len(),
{
    let k = if s[i] == '.' || s[i] == '[' { i + 1 } else { i };
    if k < s.len() {
        text::lemma_run_end(s, k, digit_class());
        text::lemma_run_end(s, k, ident_class());
        if s[k] == '"' && s[i] != '[' {
            if read_quoted(s, k + 1, Seq::empty()) is Ok {
                lemma_read_quoted_advances(s, k + 1, Seq::empty());
            }
        }
        if text::spec_is_ident_start(s[k]) {
            assert(ident_class()(s[k]));
        }
    }
}

/// Reads the steps from character `i` on, after the steps `acc` were read.
pub open spec fn read_steps(s: Seq<char>, i: int, acc: Seq<StepView>) -> Result<
    Seq<StepView>,
    ErrorView,
>
    decreases s.len() - i,
    when 0 <= i
{
    if i >= s.len() {
        Ok(acc)
    } else {
        match read_step(s, i, acc.len() == 0) {
            Err(e) => Err(e),
            Ok((step, j)) => {
                proof {
                    lemma_read_step_advances(s, i, acc.len() == 0);
                }
                read_steps(s, j, acc.push(step))
            },
        }
    }
}

/// What a text is read as: the steps of a pattern, or the failure.
pub open spec fn read(s: Seq<char>) -> Result<Seq<StepView>, ErrorView> {
    if s.len() == 0 {
        fail(s, 0, ParseErrorKind::Empty)
    } else if s[0] != '.' {
        fail(s, 0, ParseErrorKind::ExpectedRoot)
    } else {
        read_steps(s, 1, Seq::empty())
    }
}

/// A path is a pattern that holds no wildcard.
pub open spec fn without_wildcards(steps: Seq<StepView>) -> Result<Seq<StepView>, ErrorView> {
    if has_wildcard(steps) {
        Err(ErrorView { pos: 0, kind: ParseErrorKind::WildcardInPath })
    } else {
        Ok(steps)
    }
}

} // verus!
