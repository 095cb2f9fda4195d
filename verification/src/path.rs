//! Paths through a nested value, patterns over paths, and their text form.
use crate::text;
use vstd::prelude::*;
use vstd::utf8::*;

pub mod parser;
pub mod roundtrip;
pub mod syntax;

use crate::path::parser::Parser;
use crate::path::syntax::{ErrorView, StepView};
use std::str::FromStr;

verus! {

/// One step in a path through a nested value.
///
/// Paths are pure syntactic location. Whether an object step represents a
/// record field or a high-cardinality map key is a property of the shape
/// tree at that position, not of the path itself.
#[derive(Clone, Debug, PartialEq, Eq, Hash)]
pub enum PathStep {
    Field(String),
    Index(u32),
}

#[derive(Clone, Debug, PartialEq, Eq, Hash)]
pub struct Path(pub Vec<PathStep>);

/// Pattern over paths, for matching assertions to ingest sites and for
/// canonical representation of paths with map-decided steps collapsed to
/// `AnyField`.
#[derive(Clone, Debug, PartialEq, Eq, Hash)]
pub enum PathPatternStep {
    Field(String),
    AnyField,
    Index(u32),
    AnyIndex,
}

#[derive(Clone, Debug, PartialEq, Eq, Hash)]
pub struct PathPattern(pub Vec<PathPatternStep>);

#[derive(Debug, Clone, PartialEq, Eq)]
pub struct ParseError {
    pub pos: usize,
    pub kind: ParseErrorKind,
}

#[derive(Debug, Clone, Copy, PartialEq, Eq)]
pub enum ParseErrorKind {
    Empty,
    ExpectedRoot,
    UnexpectedChar(char),
    UnexpectedEnd,
    UnterminatedString,
    InvalidEscape(char),
    InvalidUnicodeEscape,
    InvalidNumber,
    WildcardInPath,
}

impl View for PathStep {
    type V = StepView;

    open spec fn view(&self) -> StepView {
        match *self {
            PathStep::Field(name) => StepView::Field(name@),
            PathStep::Index(i) => StepView::Index(i),
        }
    }
}

impl View for PathPatternStep {
    type V = StepView;

    open spec fn view(&self) -> StepView {
        match *self {
            PathPatternStep::Field(name) => StepView::Field(name@),
            PathPatternStep::AnyField => StepView::AnyField,
            PathPatternStep::Index(i) => StepView::Index(i),
            PathPatternStep::AnyIndex => StepView::AnyIndex,
        }
    }
}

impl View for Path {
    type V = Seq<StepView>;

    open spec fn view(&self) -> Seq<StepView> {
        self.0@.map_values(|s: PathStep| s@)
    }
}

impl View for PathPattern {
    type V = Seq<StepView>;

    open spec fn view(&self) -> Seq<StepView> {
        self.0@.map_values(|s: PathPatternStep| s@)
    }
}

impl View for ParseError {
    type V = ErrorView;

    open spec fn view(&self) -> ErrorView {
        ErrorView { pos: self.pos as int, kind: self.kind }
    }
}

impl Path {
    pub fn new() -> (p: Self)
        ensures
            p@ == Seq::<StepView>::empty(),
    {
        let p = Path(Vec::new());
        assert(p@ =~= Seq::<StepView>::empty());
        p
    }

    /// A path with the same steps.
    pub fn copied(&self) -> (r: Path)
        ensures
            r@ == self@,
    {
        let mut steps: Vec<PathStep> = Vec::new();
        let mut i: usize = 0;
        while i < self.0.len()
            invariant
                i <= self.0@.len(),
                steps@.len() == i,
                forall|k: int| 0 <= k < i ==> (#[trigger] steps@[k])@ == self.0@[k]@,
            decreases self.0@.len() - i,
        {
            let step = match &self.0[i] {
                PathStep::Field(name) => PathStep::Field(name.clone()),
                PathStep::Index(n) => PathStep::Index(*n),
            };
            assert(step@ == self.0@[i as int]@);
            steps.push(step);
            i += 1;
        }
        let r = Path(steps);
        assert(r@ =~= self@);
        r
    }

    pub fn push(&mut self, step: PathStep)
        ensures
            final(self)@ == old(self)@.push(step@),
    {
        self.0.push(step);
        assert(self@ =~= old(self)@.push(step@));
    }

    /// Takes the last step off, where there is one.
    pub fn pop(&mut self) -> (r: Option<PathStep>)
        ensures
            old(self)@.len() == 0 ==> r is None && final(self)@ == old(self)@,
            old(self)@.len() > 0 ==> r is Some && r->0@ == old(self)@.last() && final(self)@
                == old(self)@.drop_last(),
    {
        let r = self.0.pop();
        assert(old(self)@.len() > 0 ==> self@ =~= old(self)@.drop_last());
        r
    }

    /// Reads a path: a pattern without wildcards.
    pub fn parse(s: &str) -> (r: Result<Path, ParseError>)
        ensures
            match syntax::read(s@) {
                Err(e) => r is Err && r->Err_0@ == e,
                Ok(steps) => match syntax::without_wildcards(steps) {
                    Err(e) => r is Err && r->Err_0@ == e,
                    Ok(steps) => r is Ok && r->Ok_0@ == steps,
                },
            },
    {
        match PathPattern::parse(s) {
            Err(e) => Err(e),
            Ok(pattern) => Path::from_pattern(pattern),
        }
    }

    /// The path that a pattern without wildcards is.
    pub fn from_pattern(pattern: PathPattern) -> (r: Result<Path, ParseError>)
        ensures
            match syntax::without_wildcards(pattern@) {
                Err(e) => r is Err && r->Err_0@ == e,
                Ok(steps) => r is Ok && r->Ok_0@ == steps,
            },
    {
        let mut path = Path(Vec::new());
        let mut i: usize = 0;
        while i < pattern.0.len()
            invariant
                i <= pattern.0@.len(),
                path@ == pattern@.take(i as int),
                forall|k: int| 0 <= k < i ==> !syntax::is_wildcard(#[trigger] pattern@[k]),
            decreases pattern.0@.len() - i,
        {
            let ghost before = path@;
            match &pattern.0[i] {
                PathPatternStep::Field(name) => {
                    path.0.push(PathStep::Field(name.clone()));
                },
                PathPatternStep::Index(n) => {
                    path.0.push(PathStep::Index(*n));
                },
                _ => {
                    assert(syntax::is_wildcard(pattern@[i as int]));
                    return Err(ParseError { pos: 0, kind: ParseErrorKind::WildcardInPath });
                },
            }
            assert(path@ =~= before.push(pattern@[i as int]));
            i += 1;
            assert(path@ =~= pattern@.take(i as int));
        }
        assert(pattern@.take(i as int) =~= pattern@);
        Ok(path)
    }

    /// The text of the path.
    pub fn to_string(&self) -> (r: String)
        ensures
            r@ == syntax::show(self@),
    {
        let mut out: String = String::new();
        out.push('.');
        let mut i: usize = 0;
        while i < self.0.len()
            invariant
                i <= self.0@.len(),
                out@ == seq!['.'] + syntax::show_steps(self@, i as int),
            decreases self.0@.len() - i,
        {
            let ghost before = out@;
            match &self.0[i] {
                PathStep::Field(name) => {
                    write_field_sep(&mut out, i == 0);
                    write_ident_or_quoted(&mut out, name);
                },
                PathStep::Index(n) => {
                    write_index(&mut out, *n);
                },
            }
            assert(out@ =~= before + syntax::show_step(self@[i as int], i == 0));
            i += 1;
            assert(out@ =~= seq!['.'] + syntax::show_steps(self@, i as int));
        }
        out
    }
}

impl Default for Path {
    fn default() -> (p: Self)
        ensures
            p@ == Seq::<StepView>::empty(),
    {
        Path::new()
    }
}

impl Default for PathPattern {
    fn default() -> (p: Self)
        ensures
            p@ == Seq::<StepView>::empty(),
    {
        let p = PathPattern(Vec::new());
        assert(p@ =~= Seq::<StepView>::empty());
        p
    }
}

impl PathPattern {
    /// Reads a pattern.
    pub fn parse(s: &str) -> (r: Result<PathPattern, ParseError>)
        ensures
            match syntax::read(s@) {
                Err(e) => r is Err && r->Err_0@ == e,
                Ok(steps) => r is Ok && r->Ok_0@ == steps,
            },
    {
        let mut p = Parser::new(s);
        p.parse_pattern()
    }

    /// The pattern that matches exactly the given path.
    pub fn from_path(path: Path) -> (r: PathPattern)
        ensures
            r@ == path@,
    {
        let mut pattern = PathPattern(Vec::new());
        let mut i: usize = 0;
        while i < path.0.len()
            invariant
                i <= path.0@.len(),
                pattern@ == path@.take(i as int),
            decreases path.0@.len() - i,
        {
            let ghost before = pattern@;
            match &path.0[i] {
                PathStep::Field(name) => {
                    pattern.0.push(PathPatternStep::Field(name.clone()));
                },
                PathStep::Index(n) => {
                    pattern.0.push(PathPatternStep::Index(*n));
                },
            }
            assert(pattern@ =~= before.push(path@[i as int]));
            i += 1;
            assert(pattern@ =~= path@.take(i as int));
        }
        assert(path@.take(i as int) =~= path@);
        pattern
    }

    /// The text of the pattern.
    pub fn to_string(&self) -> (r: String)
        ensures
            r@ == syntax::show(self@),
    {
        let mut out: String = String::new();
        out.push('.');
        let mut i: usize = 0;
        while i < self.0.len()
            invariant
                i <= self.0@.len(),
                out@ == seq!['.'] + syntax::show_steps(self@, i as int),
            decreases self.0@.len() - i,
        {
            let ghost before = out@;
            match &self.0[i] {
                PathPatternStep::Field(name) => {
                    write_field_sep(&mut out, i == 0);
                    write_ident_or_quoted(&mut out, name);
                },
                PathPatternStep::AnyField => {
                    write_field_sep(&mut out, i == 0);
                    out.push('*');
                },
                PathPatternStep::Index(n) => {
                    write_index(&mut out, *n);
                },
                PathPatternStep::AnyIndex => {
                    out.push('[');
                    out.push('*');
                    out.push(']');
                },
            }
            assert(out@ =~= before + syntax::show_step(self@[i as int], i == 0));
            i += 1;
            assert(out@ =~= seq!['.'] + syntax::show_steps(self@, i as int));
        }
        out
    }
}

/// First Field after root absorbs the root '.'; subsequent Fields get their own.
fn write_field_sep(out: &mut String, first: bool)
    ensures
        final(out)@ == old(out)@ + syntax::separator(first),
{
    if !first {
        out.push('.');
    }
    assert(out@ =~= old(out)@ + syntax::separator(first));
}

fn write_index(out: &mut String, n: u32)
    ensures
        final(out)@ == old(out)@ + (seq!['['] + text::numeral(n as int, 10) + seq![']']),
{
    out.push('[');
    text::push_decimal(out, n as u64);
    out.push(']');
    assert(out@ =~= old(out)@ + (seq!['['] + text::numeral(n as int, 10) + seq![']']));
}

fn write_ident_or_quoted(out: &mut String, name: &String)
    ensures
        final(out)@ == old(out)@ + syntax::show_name(name@),
{
    let chars = text::chars_of(name.as_str());
    if is_bare_ident(&chars) {
        text::push_chars(out, &chars);
    } else {
        write_quoted(out, &chars);
    }
}

fn is_bare_ident(s: &Vec<char>) -> (b: bool)
    ensures
        b == syntax::bare_ident(s@),
{
    if s.len() == 0 || !text::is_ident_start(s[0]) {
        return false;
    }
    let mut i: usize = 0;
    while i < s.len()
        invariant
            i <= s@.len(),
            forall|k: int| 0 <= k < i ==> text::spec_is_ident_char(#[trigger] s@[k]),
        decreases s@.len() - i,
    {
        if !text::is_ident_char(s[i]) {
            return false;
        }
        i += 1;
    }
    true
}

fn write_quoted(out: &mut String, s: &Vec<char>)
    ensures
        final(out)@ == old(out)@ + (seq!['"'] + syntax::escaped_all(s@) + seq!['"']),
{
    out.push('"');
    let ghost start = out@;
    let mut i: usize = 0;
    assert(s@.take(0) =~= Seq::<char>::empty());
    assert(out@ =~= start + syntax::escaped_all(s@.take(0)));
    while i < s.len()
        invariant
            i <= s@.len(),
            out@ == start + syntax::escaped_all(s@.take(i as int)),
        decreases s@.len() - i,
    {
        let ghost before = out@;
        write_escaped(out, s[i]);
        i += 1;
        assert(s@.take(i as int).drop_last() =~= s@.take(i - 1));
        assert(out@ =~= start + syntax::escaped_all(s@.take(i as int)));
    }
    assert(s@.take(i as int) =~= s@);
    out.push('"');
    assert(out@ =~= old(out)@ + (seq!['"'] + syntax::escaped_all(s@) + seq!['"']));
}

/// Writes one character between quotes.
fn write_escaped(out: &mut String, c: char)
    ensures
        final(out)@ == old(out)@ + syntax::escaped(c),
{
    if c == '"' || c == '\\' || c == '\n' || c == '\t' || c == '\r' || c == '\0' {
        out.push('\\');
        out.push(
            if c == '\n' {
                'n'
            } else if c == '\t' {
                't'
            } else if c == '\r' {
                'r'
            } else if c == '\0' {
                '0'
            } else {
                c
            },
        );
    } else if (c as u32) < 0x20 {
        out.push('\\');
        out.push('u');
        out.push('{');
        let hex = text::numeral_of(c as u64, 16);
        text::push_chars(out, &hex);
        out.push('}');
    } else {
        out.push(c);
    }
    assert(out@ =~= old(out)@ + syntax::escaped(c));
}

impl FromStr for PathPattern {
    type Err = ParseError;

    fn from_str(s: &str) -> (r: Result<Self, ParseError>)
        ensures
            match syntax::read(s@) {
                Err(e) => r is Err && r->Err_0@ == e,
                Ok(steps) => r is Ok && r->Ok_0@ == steps,
            },
    {
        PathPattern::parse(s)
    }
}

impl FromStr for Path {
    type Err = ParseError;

    fn from_str(s: &str) -> (r: Result<Self, ParseError>)
        ensures
            match syntax::read(s@) {
                Err(e) => r is Err && r->Err_0@ == e,
                Ok(steps) => match syntax::without_wildcards(steps) {
                    Err(e) => r is Err && r->Err_0@ == e,
                    Ok(steps) => r is Ok && r->Ok_0@ == steps,
                },
            },
    {
        Path::parse(s)
    }
}

impl vstd::std_specs::convert::FromSpecImpl<Path> for PathPattern {
    open spec fn obeys_from_spec() -> bool {
        false
    }

    open spec fn from_spec(path: Path) -> PathPattern {
        arbitrary()
    }
}

impl From<Path> for PathPattern {
    fn from(path: Path) -> (r: PathPattern)
        ensures
            r@ == path@,
    {
        PathPattern::from_path(path)
    }
}

impl vstd::std_specs::convert::TryFromSpecImpl<PathPattern> for Path {
    open spec fn obeys_try_from_spec() -> bool {
        false
    }

    open spec fn try_from_spec(pattern: PathPattern) -> Result<Path, ParseError> {
        arbitrary()
    }
}

impl TryFrom<PathPattern> for Path {
    type Error = ParseError;

    fn try_from(pattern: PathPattern) -> (r: Result<Path, ParseError>)
        ensures
            match syntax::without_wildcards(pattern@) {
                Err(e) => r is Err && r->Err_0@ == e,
                Ok(steps) => r is Ok && r->Ok_0@ == steps,
            },
    {
        Path::from_pattern(pattern)
    }
}

/// The text that `{:?}` of std prints for a character: the character between
/// single quotes, with escapes where std puts them.
pub uninterp spec fn char_debug_text(c: char) -> Seq<char>;

/// `format!("{:?}", c)` of std, whose text depends on the character alone.
#[verifier::external_body]
fn char_debug(c: char) -> (r: String)
    ensures
        r@ == char_debug_text(c),
{
    format!("{:?}", c)
}

impl ParseErrorKind {
    pub open spec fn spec_name(self) -> Seq<char> {
        match self {
            ParseErrorKind::Empty => "Empty"@,
            ParseErrorKind::ExpectedRoot => "ExpectedRoot"@,
            ParseErrorKind::UnexpectedChar(c) => "UnexpectedChar("@ + char_debug_text(c) + ")"@,
            ParseErrorKind::UnexpectedEnd => "UnexpectedEnd"@,
            ParseErrorKind::UnterminatedString => "UnterminatedString"@,
            ParseErrorKind::InvalidEscape(c) => "InvalidEscape("@ + char_debug_text(c) + ")"@,
            ParseErrorKind::InvalidUnicodeEscape => "InvalidUnicodeEscape"@,
            ParseErrorKind::InvalidNumber => "InvalidNumber"@,
            ParseErrorKind::WildcardInPath => "WildcardInPath"@,
        }
    }

    /// The name of the kind, with the character it speaks of.
    pub fn name(&self) -> (r: String)
        ensures
            r@ == self.spec_name(),
    {
        match self {
            ParseErrorKind::Empty => "Empty".to_owned(),
            ParseErrorKind::ExpectedRoot => "ExpectedRoot".to_owned(),
            ParseErrorKind::UnexpectedChar(c) => {
                let mut s = "UnexpectedChar(".to_owned();
                s.append(char_debug(*c).as_str());
                s.append(")");
                s
            },
            ParseErrorKind::UnexpectedEnd => "UnexpectedEnd".to_owned(),
            ParseErrorKind::UnterminatedString => "UnterminatedString".to_owned(),
            ParseErrorKind::InvalidEscape(c) => {
                let mut s = "InvalidEscape(".to_owned();
                s.append(char_debug(*c).as_str());
                s.append(")");
                s
            },
            ParseErrorKind::InvalidUnicodeEscape => "InvalidUnicodeEscape".to_owned(),
            ParseErrorKind::InvalidNumber => "InvalidNumber".to_owned(),
            ParseErrorKind::WildcardInPath => "WildcardInPath".to_owned(),
        }
    }
}

impl ParseError {
    /// Where the text could not be read, and why.
    pub fn to_string(&self) -> (r: String)
        ensures
            r@ == "at byte "@ + text::numeral(self.pos as int, 10) + ": "@ + self.kind.spec_name(),
    {
        let mut s = "at byte ".to_owned();
        text::push_decimal(&mut s, self.pos as u64);
        s.append(": ");
        s.append(self.kind.name().as_str());
        s
    }
}

} // verus!
