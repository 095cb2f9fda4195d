//! The reader of paths and patterns.
use crate::path::syntax;
use crate::path::syntax::{ErrorView, StepView};
use crate::path::{ParseError, ParseErrorKind, PathPattern, PathPatternStep};
use crate::text;
use vstd::prelude::*;
use vstd::utf8::*;

verus! {

/// Appending a character appends its encoding.
pub proof fn lemma_encode_push(s: Seq<char>, c: char)
    ensures
        encode_utf8(s.push(c)) == encode_utf8(s) + encode_scalar(c as u32),
    decreases s.len(),
{
    if s.len() == 0 {
        assert(s.push(c).drop_first() =~= Seq::<char>::empty());
        assert(encode_utf8(s.push(c).drop_first()) =~= Seq::<u8>::empty());
        assert(encode_utf8(s.push(c)) =~= encode_utf8(s) + encode_scalar(c as u32));
    } else {
        lemma_encode_push(s.drop_first(), c);
        assert(s.push(c).drop_first() =~= s.drop_first().push(c));
        assert(encode_utf8(s.push(c)) =~= encode_utf8(s) + encode_scalar(c as u32));
    }
}

/// Each character takes the bytes of its encoding.
proof fn lemma_offset_step(s: Seq<char>, i: int)
    requires
        0 <= i < s.len(),
    ensures
        syntax::offset(s, i + 1) == syntax::offset(s, i) + encode_scalar(s[i] as u32).len(),
{
    assert(s.take(i + 1) =~= s.take(i).push(s[i]));
    lemma_encode_push(s.take(i), s[i]);
}

/// The offset of a character is within the text.
proof fn lemma_offset_bound(s: Seq<char>, i: int)
    requires
        0 <= i <= s.len(),
    ensures
        syntax::offset(s, i) <= encode_utf8(s).len(),
    decreases s.len() - i,
{
    if i < s.len() {
        lemma_offset_step(s, i);
        lemma_offset_bound(s, i + 1);
    } else {
        assert(s.take(i) =~= s);
    }
}

/// A number is no less than the number that a prefix of its digits writes.
proof fn lemma_numeral_prefix(s: Seq<char>, i: int, base: int)
    requires
        0 <= i <= s.len(),
        base >= 1,
        forall|k: int| 0 <= k < s.len() ==> text::spec_is_hex(#[trigger] s[k]),
    ensures
        0 <= text::numeral_value(s.take(i), base) <= text::numeral_value(s, base),
    decreases s.len(),
{
    if i == s.len() {
        assert(s.take(i) =~= s);
        if s.len() > 0 {
            lemma_numeral_prefix(s.drop_last(), i - 1, base);
            let v = text::numeral_value(s.drop_last(), base);
            assert(v * base >= 0) by (nonlinear_arith)
                requires
                    v >= 0,
                    base >= 1,
            ;
        }
    } else {
        lemma_numeral_prefix(s.drop_last(), i, base);
        assert(s.drop_last().take(i) =~= s.take(i));
        let v = text::numeral_value(s.drop_last(), base);
        assert(v * base >= v) by (nonlinear_arith)
            requires
                v >= 0,
                base >= 1,
        ;
        assert(text::spec_is_hex(s.last()));
    }
}

/// The width and the first byte of a character's encoding.
fn width_and_lead(c: char) -> (r: (usize, u8))
    ensures
        r.0 == encode_scalar(c as u32).len(),
        r.1 == encode_scalar(c as u32)[0],
{
    let u: u32 = c as u32;
    proof {
        char_is_scalar(c);
    }
    if u <= 0x7f {
        (1, (u & 0x7f) as u8)
    } else if u <= 0x7ff {
        (2, 0xc0 | ((u >> 6) & 0x1f) as u8)
    } else if u <= 0xffff {
        (3, 0xe0 | ((u >> 12) & 0x0f) as u8)
    } else {
        (4, 0xf0 | ((u >> 18) & 0x7) as u8)
    }
}

/// Reads a text from left to right. `at` counts characters, `pos` bytes.
pub struct Parser {
    src: Vec<char>,
    at: usize,
    pos: usize,
}

impl Parser {
    pub closed spec fn text(self) -> Seq<char> {
        self.src@
    }

    pub closed spec fn at(self) -> int {
        self.at as int
    }

    pub closed spec fn wf(self) -> bool {
        &&& self.at <= self.src@.len()
        &&& self.pos == syntax::offset(self.src@, self.at as int)
        &&& encode_utf8(self.src@).len() <= usize::MAX
    }

    pub fn new(s: &str) -> (p: Parser)
        ensures
            p.wf(),
            p.text() == s@,
            p.at() == 0,
    {
        let bytes = s.as_bytes();
        let n: usize = bytes.len();
        let src = text::chars_of(s);
        assert(src@.take(0) =~= Seq::<char>::empty());
        Parser { src, at: 0, pos: 0 }
    }

    fn peek(&self) -> (c: Option<char>)
        requires
            self.wf(),
        ensures
            c == (if self.at() < self.text().len() {
                Some(self.text()[self.at()])
            } else {
                None
            }),
    {
        if self.at < self.src.len() {
            Some(self.src[self.at])
        } else {
            None
        }
    }

    /// Steps over one character.
    fn bump(&mut self)
        requires
            old(self).wf(),
            old(self).at() < old(self).text().len(),
        ensures
            final(self).wf(),
            final(self).text() == old(self).text(),
            final(self).at() == old(self).at() + 1,
    {
        let (w, _) = width_and_lead(self.src[self.at]);
        proof {
            lemma_offset_step(self.src@, self.at as int);
            lemma_offset_bound(self.src@, self.at + 1);
        }
        assert(self.at < self.src.len());
        self.pos += w;
        self.at += 1;
    }

    fn err(&self, kind: ParseErrorKind) -> (e: ParseError)
        requires
            self.wf(),
        ensures
            e@ == (ErrorView { pos: syntax::offset(self.text(), self.at()), kind }),
    {
        ParseError { pos: self.pos, kind }
    }

    /// The error of a text that goes on with the wrong character, or ends.
    fn unexpected(&self) -> (e: ParseError)
        requires
            self.wf(),
        ensures
            Err::<(StepView, int), ErrorView>(e@) == syntax::unexpected::<(StepView, int)>(
                self.text(),
                self.at(),
            ),
    {
        match self.peek() {
            Some(c) => {
                let (_, b) = width_and_lead(c);
                self.err(ParseErrorKind::UnexpectedChar(b as char))
            },
            None => self.err(ParseErrorKind::UnexpectedEnd),
        }
    }

    /// The error one byte further on, where the text goes on.
    fn err_past(&self, kind: ParseErrorKind) -> (e: ParseError)
        requires
            self.wf(),
        ensures
            e@ == (ErrorView { pos: syntax::offset_past(self.text(), self.at()), kind }),
    {
        if self.at < self.src.len() {
            proof {
                lemma_offset_step(self.src@, self.at as int);
                lemma_offset_bound(self.src@, self.at + 1);
                char_is_scalar(self.src@[self.at as int]);
            }
            ParseError { pos: self.pos + 1, kind }
        } else {
            self.err(kind)
        }
    }

    /// Reads the digits that stand here as a number of the given base, as
    /// far as it fits.
    fn read_number(&mut self, hex: bool) -> (r: Option<u32>)
        requires
            old(self).wf(),
        ensures
            final(self).wf(),
            final(self).text() == old(self).text(),
            ({
                let class = if hex {
                    syntax::hex_class()
                } else {
                    syntax::digit_class()
                };
                let base: int = if hex {
                    16
                } else {
                    10
                };
                let end = text::run_end(old(self).text(), old(self).at(), class);
                let value = text::numeral_value(
                    old(self).text().subrange(old(self).at(), end),
                    base,
                );
                &&& final(self).at() == end
                &&& r == (if value > u32::MAX {
                    None
                } else {
                    Some(value as u32)
                })
                &&& value >= 0
            }),
    {
        let ghost s = self.text();
        let ghost start = self.at();
        let ghost class = if hex {
            syntax::hex_class()
        } else {
            syntax::digit_class()
        };
        let base: u64 = if hex {
            16
        } else {
            10
        };
        let mut value: u64 = 0;
        let mut fits: bool = true;
        proof {
            text::lemma_run_end(s, start, class);
            assert(s.subrange(start, start) =~= Seq::<char>::empty());
        }
        let ghost end = text::run_end(s, start, class);
        let ghost digits = s.subrange(start, end);
        assert(forall|k: int| 0 <= k < digits.len() ==> class(#[trigger] digits[k]));
        loop
            invariant
                self.wf(),
                self.text() == s,
                0 <= start <= self.at() <= end <= s.len(),
                end == text::run_end(s, start, class),
                end < s.len() ==> !class(s[end]),
                forall|k: int| start <= k < end ==> class(#[trigger] s[k]),
                class == (if hex {
                    syntax::hex_class()
                } else {
                    syntax::digit_class()
                }),
                base == (if hex {
                    16int
                } else {
                    10int
                }),
                digits == s.subrange(start, end),
                forall|k: int| 0 <= k < digits.len() ==> text::spec_is_hex(#[trigger] digits[k]),
                ({
                    let so_far = text::numeral_value(s.subrange(start, self.at()), base as int);
                    if fits {
                        value == so_far && value <= u32::MAX
                    } else {
                        so_far > u32::MAX
                    }
                }),
            ensures
                self.at() == end,
            decreases s.len() - self.at(),
        {
            let c = match self.peek() {
                Some(c) => c,
                None => {
                    break;
                },
            };
            if !(if hex {
                text::is_hex(c)
            } else {
                text::is_digit(c)
            }) {
                break;
            }
            proof {
                assert(class(s[self.at()]));
                let here = s.subrange(start, self.at() + 1);
                assert(here.drop_last() =~= s.subrange(start, self.at()));
                assert(here.last() == c);
                assert(digits.take(self.at() - start) =~= s.subrange(start, self.at()));
                assert(digits.take(self.at() + 1 - start) =~= here);
                lemma_numeral_prefix(digits.take(self.at() + 1 - start), self.at() - start, base as int);
                assert(here.take(self.at() - start) =~= s.subrange(start, self.at()));
            }
            if fits {
                value = value * base + digit_of(c);
                if value > u32::MAX as u64 {
                    fits = false;
                }
            }
            self.bump();
        }
        proof {
            lemma_numeral_prefix(digits, 0, base as int);
            assert(digits.take(0) =~= Seq::<char>::empty());
        }
        if fits {
            Some(value as u32)
        } else {
            None
        }
    }

    fn parse_unicode_escape(&mut self) -> (r: Result<char, ParseError>)
        requires
            old(self).wf(),
        ensures
            final(self).wf(),
            final(self).text() == old(self).text(),
            match syntax::read_unicode(old(self).text(), old(self).at()) {
                Ok((c, j)) => r == Ok::<char, ParseError>(c) && final(self).at() == j,
                Err(e) => r is Err && r->Err_0@ == e,
            },
    {
        if self.peek() != Some('{') {
            return Err(self.err_past(ParseErrorKind::InvalidUnicodeEscape));
        }
        self.bump();
        let start: usize = self.at;
        let number = self.read_number(true);
        let empty: bool = self.at == start;
        let cp: u32 = match number {
            Some(cp) => cp,
            None => {
                return Err(self.err(ParseErrorKind::InvalidUnicodeEscape));
            },
        };
        if empty {
            return Err(self.err(ParseErrorKind::InvalidUnicodeEscape));
        }
        if self.peek() != Some('}') {
            return Err(self.err_past(ParseErrorKind::InvalidUnicodeEscape));
        }
        self.bump();
        match char::from_u32(cp) {
            Some(c) => Ok(c),
            None => Err(self.err(ParseErrorKind::InvalidUnicodeEscape)),
        }
    }

    /// Reads what follows a backslash.
    fn parse_escape(&mut self) -> (r: Result<char, ParseError>)
        requires
            old(self).wf(),
        ensures
            final(self).wf(),
            final(self).text() == old(self).text(),
            match syntax::read_escape(old(self).text(), old(self).at()) {
                Ok((c, j)) => r == Ok::<char, ParseError>(c) && final(self).at() == j,
                Err(e) => r is Err && r->Err_0@ == e,
            },
    {
        let c = match self.peek() {
            Some(c) => c,
            None => {
                return Err(self.err(ParseErrorKind::UnterminatedString));
            },
        };
        if c == 'u' {
            self.bump();
            return self.parse_unicode_escape();
        }
        let plain: char = if c == '"' || c == '\\' {
            c
        } else if c == 'n' {
            '\n'
        } else if c == 't' {
            '\t'
        } else if c == 'r' {
            '\r'
        } else if c == '0' {
            '\0'
        } else {
            let (_, b) = width_and_lead(c);
            return Err(self.err(ParseErrorKind::InvalidEscape(b as char)));
        };
        self.bump();
        Ok(plain)
    }

    /// Reads a quoted name from behind its opening quote.
    fn parse_quoted(&mut self) -> (r: Result<String, ParseError>)
        requires
            old(self).wf(),
        ensures
            final(self).wf(),
            final(self).text() == old(self).text(),
            match syntax::read_quoted(old(self).text(), old(self).at(), Seq::empty()) {
                Ok((name, j)) => r is Ok && r->Ok_0@ == name && final(self).at() == j,
                Err(e) => r is Err && r->Err_0@ == e,
            },
    {
        let ghost s = self.text();
        let ghost whole = syntax::read_quoted(s, self.at(), Seq::empty());
        let mut out: String = String::new();
        loop
            invariant
                self.wf(),
                self.text() == s,
                old(self).text() == s,
                whole == syntax::read_quoted(s, old(self).at(), Seq::empty()),
                whole == syntax::read_quoted(s, self.at(), out@),
            decreases s.len() - self.at(),
        {
            let c = match self.peek() {
                Some(c) => c,
                None => {
                    return Err(self.err(ParseErrorKind::UnterminatedString));
                },
            };
            let ghost start = self.at();
            self.bump();
            if c == '"' {
                return Ok(out);
            } else if c == '\\' {
                match self.parse_escape() {
                    Ok(ch) => {
                        out.push(ch);
                    },
                    Err(e) => {
                        return Err(e);
                    },
                }
                proof {
                    syntax::lemma_read_escape_advances(s, start + 1);
                }
            } else {
                out.push(c);
            }
        }
    }

    /// Reads a field name or `*`.
    fn parse_field_body(&mut self) -> (r: Result<PathPatternStep, ParseError>)
        requires
            old(self).wf(),
        ensures
            final(self).wf(),
            final(self).text() == old(self).text(),
            match syntax::read_field(old(self).text(), old(self).at()) {
                Ok((step, j)) => r is Ok && r->Ok_0@ == step && final(self).at() == j,
                Err(e) => r is Err && r->Err_0@ == e,
            },
    {
        let c = match self.peek() {
            Some(c) => c,
            None => {
                return Err(self.unexpected());
            },
        };
        if c == '*' {
            self.bump();
            Ok(PathPatternStep::AnyField)
        } else if c == '"' {
            self.bump();
            match self.parse_quoted() {
                Ok(s) => Ok(PathPatternStep::Field(s)),
                Err(e) => Err(e),
            }
        } else if text::is_ident_start(c) {
            Ok(PathPatternStep::Field(self.parse_ident()))
        } else {
            Err(self.unexpected())
        }
    }

    /// Reads the run of identifier characters that stands here.
    fn parse_ident(&mut self) -> (r: String)
        requires
            old(self).wf(),
        ensures
            final(self).wf(),
            final(self).text() == old(self).text(),
            final(self).at() == text::run_end(
                old(self).text(),
                old(self).at(),
                syntax::ident_class(),
            ),
            r@ == old(self).text().subrange(old(self).at(), final(self).at()),
    {
        let ghost s = self.text();
        let ghost end = text::run_end(s, self.at(), syntax::ident_class());
        let start: usize = self.at;
        proof {
            text::lemma_run_end(s, self.at(), syntax::ident_class());
        }
        loop
            invariant
                self.wf(),
                self.text() == s,
                start <= self.at() <= end <= s.len(),
                end < s.len() ==> !syntax::ident_class()(s[end]),
                forall|k: int| start <= k < end ==> syntax::ident_class()(#[trigger] s[k]),
            ensures
                self.at() == end,
            decreases s.len() - self.at(),
        {
            let c = match self.peek() {
                Some(c) => c,
                None => {
                    break;
                },
            };
            if !text::is_ident_char(c) {
                assert(self.at() < end ==> syntax::ident_class()(s[self.at()]));
                break;
            }
            assert(self.at() == end ==> !syntax::ident_class()(s[end]));
            self.bump();
        }
        text::string_of_range(&self.src, start, self.at)
    }

    /// Reads an index or `*`, and the closing bracket.
    fn parse_index_body(&mut self) -> (r: Result<PathPatternStep, ParseError>)
        requires
            old(self).wf(),
        ensures
            final(self).wf(),
            final(self).text() == old(self).text(),
            match syntax::read_index(old(self).text(), old(self).at()) {
                Ok((step, j)) => r is Ok && r->Ok_0@ == step && final(self).at() == j,
                Err(e) => r is Err && r->Err_0@ == e,
            },
    {
        let c = match self.peek() {
            Some(c) => c,
            None => {
                return Err(self.unexpected());
            },
        };
        let step = if c == '*' {
            self.bump();
            PathPatternStep::AnyIndex
        } else if text::is_digit(c) {
            let e = self.err(ParseErrorKind::InvalidNumber);
            match self.read_number(false) {
                Some(n) => PathPatternStep::Index(n),
                None => {
                    return Err(e);
                },
            }
        } else {
            return Err(self.unexpected());
        };
        if self.peek() == Some(']') {
            self.bump();
            Ok(step)
        } else {
            Err(self.unexpected())
        }
    }

    /// Reads the step that stands here.
    fn parse_step(&mut self, first: bool) -> (r: Result<PathPatternStep, ParseError>)
        requires
            old(self).wf(),
            old(self).at() < old(self).text().len(),
        ensures
            final(self).wf(),
            final(self).text() == old(self).text(),
            match syntax::read_step(old(self).text(), old(self).at(), first) {
                Ok((step, j)) => r is Ok && r->Ok_0@ == step && final(self).at() == j,
                Err(e) => r is Err && r->Err_0@ == e,
            },
    {
        let c: char = self.src[self.at];
        if c == '.' && !first {
            self.bump();
            self.parse_field_body()
        } else if c == '[' {
            self.bump();
            self.parse_index_body()
        } else if first && (text::is_ident_start(c) || c == '"' || c == '*') {
            self.parse_field_body()
        } else {
            Err(self.unexpected())
        }
    }

    /// Reads the whole text as a pattern.
    pub fn parse_pattern(&mut self) -> (r: Result<PathPattern, ParseError>)
        requires
            old(self).wf(),
            old(self).at() == 0,
        ensures
            match syntax::read(old(self).text()) {
                Ok(steps) => r is Ok && r->Ok_0@ == steps,
                Err(e) => r is Err && r->Err_0@ == e,
            },
    {
        let ghost s = self.text();
        match self.peek() {
            None => {
                return Err(self.err(ParseErrorKind::Empty));
            },
            Some(c) => {
                if c != '.' {
                    return Err(self.err(ParseErrorKind::ExpectedRoot));
                }
            },
        }
        self.bump();
        let mut pattern = PathPattern(Vec::new());
        assert(pattern@ =~= Seq::<StepView>::empty());
        loop
            invariant
                self.wf(),
                self.text() == s,
                old(self).text() == s,
                0 <= self.at(),
                syntax::read(s) == syntax::read_steps(s, self.at(), pattern@),
            decreases s.len() - self.at(),
        {
            if self.at == self.src.len() {
                return Ok(pattern);
            }
            let first: bool = pattern.0.len() == 0;
            let ghost start = self.at();
            let ghost before = pattern@;
            match self.parse_step(first) {
                Err(e) => {
                    return Err(e);
                },
                Ok(step) => {
                    pattern.0.push(step);
                    assert(pattern@ =~= before.push(step@));
                },
            }
            proof {
                syntax::lemma_read_step_advances(s, start, first);
            }
        }
    }
}

fn digit_of(c: char) -> (d: u64)
    requires
        text::spec_is_hex(c),
    ensures
        d == text::digit_value(c),
        d < 16,
{
    let u: u32 = c as u32;
    if text::is_digit(c) {
        (u - 48) as u64
    } else if 'a' <= c && c <= 'f' {
        (u - 97 + 10) as u64
    } else {
        (u - 65 + 10) as u64
    }
}

} // verus!
