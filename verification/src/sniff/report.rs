//! Candidate syntaxes: which of them can be judged at all, how they are
//! ranked, and which of them are the answer.
use crate::double::Double;
use crate::sniff::alphabet;
use crate::sniff::alphabet::Alphabet;
use crate::sniff::profile::NgramProfile;
use crate::sniff::stream::{SniffPolicy, Sniffed};
use crate::tally;
use vstd::prelude::*;

verus! {

#[derive(Clone, Copy, Debug, Eq, PartialEq, Hash, PartialOrd, Ord, Structural)]
pub enum Syntax {
    /// JSON under any framing.
    Json,
    /// JSON with a newline framing commitment: one complete value per line.
    /// Scores *in addition to* `Json`, never instead of it.
    JsonLines,
    Csv,
    Tsv,
    Xml,
    UrlEncoded,
    Base64,
    Hex,
    Yaml,
    Ini,
    /// Text with no machine-readable syntax: log lines, prose, free text.
    LogLines,
    /// Compressed or encrypted. A terminal answer, not a failure.
    OpaqueBinary,
}

impl Syntax {
    pub open spec fn spec_name(self) -> Seq<char> {
        match self {
            Syntax::Json => "json"@,
            Syntax::JsonLines => "jsonl"@,
            Syntax::Csv => "csv"@,
            Syntax::Tsv => "tsv"@,
            Syntax::Xml => "xml"@,
            Syntax::UrlEncoded => "urlencoded"@,
            Syntax::Base64 => "base64"@,
            Syntax::Hex => "hex"@,
            Syntax::Yaml => "yaml"@,
            Syntax::Ini => "ini"@,
            Syntax::LogLines => "loglines"@,
            Syntax::OpaqueBinary => "opaque"@,
        }
    }

    pub fn name(self) -> (s: &'static str)
        ensures
            s@ == self.spec_name(),
    {
        match self {
            Syntax::Json => "json",
            Syntax::JsonLines => "jsonl",
            Syntax::Csv => "csv",
            Syntax::Tsv => "tsv",
            Syntax::Xml => "xml",
            Syntax::UrlEncoded => "urlencoded",
            Syntax::Base64 => "base64",
            Syntax::Hex => "hex",
            Syntax::Yaml => "yaml",
            Syntax::Ini => "ini",
            Syntax::LogLines => "loglines",
            Syntax::OpaqueBinary => "opaque",
        }
    }

    /// Whether the syntax is judged by its lines.
    pub open spec fn by_lines(self) -> bool {
        self == Syntax::JsonLines || self == Syntax::Csv || self == Syntax::Tsv || self
            == Syntax::Yaml || self == Syntax::Ini || self == Syntax::LogLines
    }

    /// The syntaxes, in the order in which they are scored.
    pub open spec fn nth(i: int) -> Syntax {
        if i == 0 {
            Syntax::Json
        } else if i == 1 {
            Syntax::JsonLines
        } else if i == 2 {
            Syntax::Csv
        } else if i == 3 {
            Syntax::Tsv
        } else if i == 4 {
            Syntax::Xml
        } else if i == 5 {
            Syntax::UrlEncoded
        } else if i == 6 {
            Syntax::Base64
        } else if i == 7 {
            Syntax::Hex
        } else if i == 8 {
            Syntax::Yaml
        } else if i == 9 {
            Syntax::Ini
        } else if i == 10 {
            Syntax::LogLines
        } else {
            Syntax::OpaqueBinary
        }
    }
}

fn nth_syntax(i: usize) -> (s: Syntax)
    ensures
        s == Syntax::nth(i as int),
{
    match i {
        0 => Syntax::Json,
        1 => Syntax::JsonLines,
        2 => Syntax::Csv,
        3 => Syntax::Tsv,
        4 => Syntax::Xml,
        5 => Syntax::UrlEncoded,
        6 => Syntax::Base64,
        7 => Syntax::Hex,
        8 => Syntax::Yaml,
        9 => Syntax::Ini,
        10 => Syntax::LogLines,
        _ => Syntax::OpaqueBinary,
    }
}

/// A syntax can be judged on sixteen bytes or more, and one that is judged
/// by its lines on three lines or more.
pub open spec fn gated(s: Syntax, units: u64, lines: u64) -> bool {
    units >= 16 && (s.by_lines() ==> lines >= 3)
}

/// Gates are structural preconditions, not evidence: a one-line input simply
/// cannot be evaluated for line-framing.
pub fn gate(s: Syntax, p: &NgramProfile) -> (b: bool)
    ensures
        b == gated(s, p.units, p.lines),
{
    if p.units < 16 {
        return false;
    }
    match s {
        Syntax::JsonLines
        | Syntax::Csv
        | Syntax::Tsv
        | Syntax::Yaml
        | Syntax::Ini
        | Syntax::LogLines => p.lines >= 3,
        _ => true,
    }
}

/// The first `n` syntaxes that pass their gate.
pub open spec fn gated_syntaxes(n: int, units: u64, lines: u64) -> Seq<Syntax>
    decreases n,
{
    if n <= 0 {
        Seq::empty()
    } else {
        let before = gated_syntaxes(n - 1, units, lines);
        if gated(Syntax::nth(n - 1), units, lines) {
            before.push(Syntax::nth(n - 1))
        } else {
            before
        }
    }
}

/// The syntaxes that can be judged on this input, in the order in which they
/// are scored.
pub fn eligible(p: &NgramProfile) -> (r: Vec<Syntax>)
    ensures
        r@ == gated_syntaxes(12, p.units, p.lines),
{
    let mut out: Vec<Syntax> = Vec::new();
    let mut i: usize = 0;
    while i < 12
        invariant
            i <= 12,
            out@ == gated_syntaxes(i as int, p.units, p.lines),
        decreases 12 - i,
    {
        let s = nth_syntax(i);
        if gate(s, p) {
            out.push(s);
        }
        i += 1;
    }
    out
}

// ---------------------------------------------------------------------
// Counts that the scores are made of
// ---------------------------------------------------------------------

/// Three lines or more, and more than nine in ten of them scalars.
pub open spec fn mostly_scalars(lines: int, scalar_lines: int) -> bool {
    lines >= 3 && 10 * scalar_lines > 9 * lines
}

/// A stream of bare JSON scalars, one per line: three lines or more, and
/// more than nine in ten of them scalars.
pub fn scalar_dominant(p: &NgramProfile) -> (b: bool)
    ensures
        b == (p.lines >= 3 && 10 * p.scalar_lines > 9 * p.lines),
        b == mostly_scalars(p.lines as int, p.scalar_lines as int),
{
    p.lines >= 3 && 10 * (p.scalar_lines as u128) > 9 * (p.lines as u128)
}

#[derive(Clone, Copy, Debug, Eq, PartialEq, Structural)]
pub enum ByteClass {
    /// Below the space, and neither tab nor line end.
    Control,
    /// Space and tab.
    Blank,
    /// What a form-encoded body is written with.
    Url,
    /// The base64 alphabet, with padding and line ends.
    Base64,
    /// Hexadecimal digits and whitespace.
    HexOrSpace,
    /// Hexadecimal digits.
    Hex,
}

pub open spec fn spec_alnum(b: u8) -> bool {
    0x30 <= b <= 0x39 || 0x41 <= b <= 0x5a || 0x61 <= b <= 0x7a
}

pub open spec fn spec_hex(b: u8) -> bool {
    0x30 <= b <= 0x39 || 0x41 <= b <= 0x46 || 0x61 <= b <= 0x66
}

/// One of `%&=+._~:/?#[]@!$'()*,;-` or a line end.
pub open spec fn spec_url_mark(b: u8) -> bool {
    b == 0x25 || b == 0x26 || b == 0x3d || b == 0x2b || b == 0x2e || b == 0x5f || b == 0x7e || b
        == 0x3a || b == 0x2f || b == 0x3f || b == 0x23 || b == 0x5b || b == 0x5d || b == 0x40 || b
        == 0x21 || b == 0x24 || b == 0x27 || b == 0x28 || b == 0x29 || b == 0x2a || b == 0x2c || b
        == 0x3b || b == 0x2d || b == 0x0d || b == 0x0a
}

impl ByteClass {
    pub open spec fn has(self, b: u8) -> bool {
        match self {
            ByteClass::Control => b < 0x20 && b != 0x09 && b != 0x0d && b != 0x0a,
            ByteClass::Blank => b == 0x20 || b == 0x09,
            ByteClass::Url => spec_alnum(b) || spec_url_mark(b),
            ByteClass::Base64 => spec_alnum(b) || b == 0x2b || b == 0x2f || b == 0x3d || b == 0x0d
                || b == 0x0a,
            ByteClass::HexOrSpace => spec_hex(b) || crate::sniff::brace::spec_is_space(b),
            ByteClass::Hex => spec_hex(b),
        }
    }

    fn contains(self, b: u8) -> (r: bool)
        ensures
            r == self.has(b),
    {
        let digit: bool = 0x30 <= b && b <= 0x39;
        let alnum: bool = digit || (0x41 <= b && b <= 0x5a) || (0x61 <= b && b <= 0x7a);
        let hex: bool = digit || (0x41 <= b && b <= 0x46) || (0x61 <= b && b <= 0x66);
        match self {
            ByteClass::Control => b < 0x20 && b != 0x09 && b != 0x0d && b != 0x0a,
            ByteClass::Blank => b == 0x20 || b == 0x09,
            ByteClass::Url => alnum || url_mark(b),
            ByteClass::Base64 => alnum || b == 0x2b || b == 0x2f || b == 0x3d || b == 0x0d || b
                == 0x0a,
            ByteClass::HexOrSpace => hex || crate::sniff::brace::is_space(b),
            ByteClass::Hex => hex,
        }
    }
}

fn url_mark(b: u8) -> (r: bool)
    ensures
        r == spec_url_mark(b),
{
    b == 0x25 || b == 0x26 || b == 0x3d || b == 0x2b || b == 0x2e || b == 0x5f || b == 0x7e || b
        == 0x3a || b == 0x2f || b == 0x3f || b == 0x23 || b == 0x5b || b == 0x5d || b == 0x40 || b
        == 0x21 || b == 0x24 || b == 0x27 || b == 0x28 || b == 0x29 || b == 0x2a || b == 0x2c || b
        == 0x3b || b == 0x2d || b == 0x0d || b == 0x0a
}

/// The sum of the counts of the bytes below `n` that are in the class.
pub open spec fn class_sum(counts: Seq<u64>, class: ByteClass, n: int) -> int
    decreases n,
{
    if n <= 0 {
        0
    } else {
        class_sum(counts, class, n - 1) + (if class.has((n - 1) as u8) {
            counts[n - 1] as int
        } else {
            0
        })
    }
}

/// How many of the profiled bytes are in a class.
pub fn count_class(p: &NgramProfile, class: ByteClass) -> (r: u128)
    ensures
        r == class_sum(p.unigram@, class, 256),
{
    let mut sum: u128 = 0;
    let mut i: usize = 0;
    while i < 256
        invariant
            i <= 256,
            sum == class_sum(p.unigram@, class, i as int),
            sum <= i * u64::MAX,
        decreases 256 - i,
    {
        if class.contains(i as u8) {
            sum += p.unigram[i] as u128;
        }
        i += 1;
    }
    sum
}

/// The indent widths of the lines that are indented, and whether they are
/// all multiples of the smallest one.
pub fn indent_ladder(p: &NgramProfile) -> (r: (Vec<u32>, bool))
    ensures
        forall|i: int, j: int| 0 <= i < j < r.0@.len() ==> #[trigger] r.0@[i] < #[trigger] r.0@[j],
        forall|w: u32| #[trigger] r.0@.contains(w) <==> w > 0 && p.indents@.contains_key(w),
        r.1 == (r.0@.len() > 0 && forall|w: u32| #[trigger]
            r.0@.contains(w) ==> w % r.0@[0] == 0),
{
    let entries = tally::entries(&p.indents);
    let mut widths: Vec<u32> = Vec::new();
    let mut consistent: bool = true;
    let mut i: usize = 0;
    while i < entries.len()
        invariant
            i <= entries@.len(),
            tally::ascending_entries(p.indents@, entries@),
            forall|a: int, b: int|
                0 <= a < b < widths@.len() ==> #[trigger] widths@[a] < #[trigger] widths@[b],
            forall|a: int|
                0 <= a < widths@.len() ==> #[trigger] widths@[a] > 0 && exists|k: int|
                    0 <= k < i && (#[trigger] entries@[k]).0 == widths@[a],
            forall|k: int|
                0 <= k < i && (#[trigger] entries@[k]).0 > 0 ==> widths@.contains(entries@[k].0),
        decreases entries@.len() - i,
    {
        let w: u32 = entries[i].0;
        let ghost before = widths@;
        if w > 0 {
            assert forall|a: int| 0 <= a < widths@.len() implies #[trigger] widths@[a] < w by {
                let k = choose|k: int| 0 <= k < i && (#[trigger] entries@[k]).0 == widths@[a];
                assert(entries@[k].0 < entries@[i as int].0);
            }
            widths.push(w);
            assert(widths@[before.len() as int] == w);
            assert forall|k: int| 0 <= k < i + 1 && (#[trigger] entries@[k]).0 > 0 implies
                widths@.contains(entries@[k].0) by {
                if k < i {
                    let a = choose|a: int| 0 <= a < before.len() && before[a] == entries@[k].0;
                    assert(widths@[a] == entries@[k].0);
                }
            }
        }
        i += 1;
    }
    let mut j: usize = 0;
    while j < widths.len()
        invariant
            j <= widths@.len(),
            forall|a: int| 0 <= a < widths@.len() ==> #[trigger] widths@[a] > 0,
            consistent == (forall|a: int|
                0 <= a < j ==> #[trigger] widths@[a] % widths@[0] == 0),
        decreases widths@.len() - j,
    {
        assert(widths@[0] > 0);
        if widths[j] % widths[0] != 0 {
            consistent = false;
        }
        j += 1;
    }
    proof {
        assert forall|w: u32| #[trigger] widths@.contains(w) <==> w > 0
            && p.indents@.contains_key(w) by {
            if widths@.contains(w) {
                let a = choose|a: int| 0 <= a < widths@.len() && widths@[a] == w;
                assert(widths@[a] > 0);
            }
        }
        assert forall|a: int| 0 <= a < widths@.len() implies widths@.contains(
            #[trigger] widths@[a],
        ) by {}
        if consistent {
            assert forall|w: u32| #[trigger] widths@.contains(w) implies w % widths@[0] == 0 by {
                let a = choose|a: int| 0 <= a < widths@.len() && widths@[a] == w;
                assert(widths@[a] % widths@[0] == 0);
            }
        }
    }
    let ladder: bool = widths.len() > 0 && consistent;
    (widths, ladder)
}

// ---------------------------------------------------------------------
// Candidates
// ---------------------------------------------------------------------

/// One feature's contribution to a candidate's score.
#[derive(Clone, Debug, PartialEq)]
pub struct Evidence {
    /// Stable feature name.
    pub feature: String,
    /// How well the observation satisfied the feature, from minus one to one.
    pub satisfaction: Double,
    /// The feature's evidentiary weight for this candidate, in bits.
    pub weight: Double,
    /// Human-readable observation. Diagnostics only; never parsed.
    pub note: String,
}

/// One scored hypothesis, with the reasoning attached.
#[derive(Clone, Debug)]
pub struct Candidate {
    pub syntax: Syntax,
    /// Net evidence in bits. Signed.
    pub bits: Double,
    /// Base-2 logistic of `bits`.
    pub confidence: Double,
    pub evidence: Vec<Evidence>,
}

/// The sequence with `e` put behind every candidate whose evidence is no
/// weaker.
pub open spec fn insert_ranked(s: Seq<Candidate>, e: Candidate) -> Seq<Candidate>
    decreases s.len(),
{
    if s.len() > 0 && s.last().bits.lt(e.bits) {
        insert_ranked(s.drop_last(), e).push(s.last())
    } else {
        s.push(e)
    }
}

/// The candidates by falling evidence; candidates of equal evidence keep
/// their order.
pub open spec fn ranked(s: Seq<Candidate>) -> Seq<Candidate>
    decreases s.len(),
{
    if s.len() == 0 {
        s
    } else {
        insert_ranked(ranked(s.drop_last()), s.last())
    }
}

fn insert_candidate(v: &mut Vec<Candidate>, e: Candidate)
    ensures
        final(v)@ == insert_ranked(old(v)@, e),
{
    let mut p: usize = v.len();
    let ghost s = v@;
    assert(s.take(p as int) =~= s);
    assert(s.skip(p as int) =~= Seq::empty());
    assert(insert_ranked(s, e) =~= insert_ranked(s.take(p as int), e) + s.skip(p as int));
    while p > 0 && v[p - 1].bits.less_than(e.bits)
        invariant
            p <= v@.len(),
            v@ == s,
            insert_ranked(s, e) == insert_ranked(s.take(p as int), e) + s.skip(p as int),
        decreases p,
    {
        let ghost upto = s.take(p as int);
        assert(upto.drop_last() =~= s.take(p - 1));
        assert(upto.last() == s[p - 1]);
        assert(insert_ranked(upto.drop_last(), e).push(upto.last()) + s.skip(p as int)
            =~= insert_ranked(upto.drop_last(), e) + s.skip(p - 1));
        p -= 1;
    }
    let ghost upto = s.take(p as int);
    assert(p > 0 ==> upto.last() == s[p - 1]);
    v.insert(p, e);
    assert(v@ =~= upto.push(e) + s.skip(p as int));
}

/// Ranks the candidates, best first.
pub fn rank(scored: Vec<Candidate>) -> (r: Vec<Candidate>)
    requires
        forall|i: int| 0 <= i < scored@.len() ==> !(#[trigger] scored@[i]).bits.nan(),
    ensures
        r@ == ranked(scored@),
{
    let mut rest = scored;
    let mut out: Vec<Candidate> = Vec::new();
    let n: usize = rest.len();
    let mut i: usize = 0;
    assert(scored@.skip(0) =~= scored@);
    assert(scored@.take(0) =~= Seq::empty());
    while i < n
        invariant
            i <= n == scored@.len(),
            rest@ == scored@.skip(i as int),
            out@ == ranked(scored@.take(i as int)),
        decreases n - i,
    {
        let e = rest.remove(0);
        let ghost upto = scored@.take(i + 1);
        assert(upto.drop_last() =~= scored@.take(i as int));
        assert(upto.last() == e);
        insert_candidate(&mut out, e);
        assert(rest@ =~= scored@.skip(i + 1));
        i += 1;
    }
    assert(scored@.take(i as int) =~= scored@);
    out
}

/// The result of a sniff, with every intermediate kept for diagnostics.
#[derive(Debug)]
pub struct SniffReport {
    pub alphabet: Alphabet,
    pub profile: NgramProfile,
    /// Candidates above the confidence floor, best first. Empty means
    /// "unknown", which is a first-class answer.
    pub candidates: Vec<Candidate>,
    /// Everything that was scored and didn't clear the floor, best first.
    pub rejected: Vec<Candidate>,
    /// Bytes actually profiled, after the sampling budget.
    pub bytes_profiled: u64,
    /// Raw bytes handed to the sniffer.
    pub bytes_total: u64,
}

/// Whether a candidate clears the confidence floor.
pub open spec fn clears(floor: Double) -> spec_fn(Candidate) -> bool {
    |c: Candidate| floor.le(c.confidence)
}

pub open spec fn fails(floor: Double) -> spec_fn(Candidate) -> bool {
    |c: Candidate| !floor.le(c.confidence)
}

impl SniffReport {
    /// Ranks what was scored and splits it at the confidence floor.
    pub fn assemble(sniffed: Sniffed, scored: Vec<Candidate>, policy: &SniffPolicy) -> (r: Self)
        requires
            forall|i: int| 0 <= i < scored@.len() ==> !(#[trigger] scored@[i]).bits.nan(),
        ensures
            r.candidates@ == ranked(scored@).filter(clears(policy.min_confidence)),
            r.rejected@ == ranked(scored@).filter(fails(policy.min_confidence)),
            r.alphabet == sniffed.alphabet,
            r.profile == sniffed.profile,
            r.bytes_profiled == sniffed.bytes_profiled,
            r.bytes_total == sniffed.bytes_total,
    {
        let floor: Double = policy.min_confidence;
        let ghost all = ranked(scored@);
        let mut rest = rank(scored);
        let mut candidates: Vec<Candidate> = Vec::new();
        let mut rejected: Vec<Candidate> = Vec::new();
        let n: usize = rest.len();
        let mut i: usize = 0;
        assert(all.skip(0) =~= all);
        assert(all.take(0) =~= Seq::empty());
        proof {
            reveal(Seq::filter);
        }
        assert(candidates@ =~= all.take(0).filter(clears(floor)));
        assert(rejected@ =~= all.take(0).filter(fails(floor)));
        while i < n
            invariant
                i <= n == all.len(),
                rest@ == all.skip(i as int),
                candidates@ == all.take(i as int).filter(clears(floor)),
                rejected@ == all.take(i as int).filter(fails(floor)),
            decreases n - i,
        {
            let c = rest.remove(0);
            let ghost upto = all.take(i + 1);
            proof {
                assert(upto.drop_last() =~= all.take(i as int));
                assert(upto.last() == c);
                reveal(Seq::filter);
            }
            if floor.at_most(c.confidence) {
                candidates.push(c);
            } else {
                rejected.push(c);
            }
            assert(rest@ =~= all.skip(i + 1));
            i += 1;
        }
        assert(all.take(i as int) =~= all);
        SniffReport {
            alphabet: sniffed.alphabet,
            profile: sniffed.profile,
            candidates,
            rejected,
            bytes_profiled: sniffed.bytes_profiled,
            bytes_total: sniffed.bytes_total,
        }
    }

    pub fn best(&self) -> (r: Option<&Candidate>)
        ensures
            match r {
                Some(c) => self.candidates@.len() > 0 && *c == self.candidates@[0],
                None => self.candidates@.len() == 0,
            },
    {
        if self.candidates.len() == 0 {
            None
        } else {
            Some(&self.candidates[0])
        }
    }

    /// Whether the input identified as nothing at all.
    pub fn is_unknown(&self) -> (b: bool)
        ensures
            b == (self.candidates@.len() == 0),
    {
        self.candidates.len() == 0
    }

    /// Looks up a candidate whether or not it cleared the floor.
    pub fn candidate(&self, syntax: Syntax) -> (r: Option<&Candidate>)
        ensures
            match r {
                Some(c) => first_of(self.candidates@ + self.rejected@, syntax) matches Some(i)
                    && *c == (self.candidates@ + self.rejected@)[i],
                None => first_of(self.candidates@ + self.rejected@, syntax) is None,
            },
    {
        let ghost all = self.candidates@ + self.rejected@;
        let mut i: usize = 0;
        while i < self.candidates.len()
            invariant
                i <= self.candidates@.len(),
                all == self.candidates@ + self.rejected@,
                first_of(all, syntax) == first_from(all, syntax, i as int),
            decreases self.candidates@.len() - i,
        {
            if self.candidates[i].syntax == syntax {
                return Some(&self.candidates[i]);
            }
            i += 1;
        }
        let mut j: usize = 0;
        while j < self.rejected.len()
            invariant
                j <= self.rejected@.len(),
                all == self.candidates@ + self.rejected@,
                first_of(all, syntax) == first_from(all, syntax, self.candidates@.len() + j),
            decreases self.rejected@.len() - j,
        {
            assert(all[self.candidates@.len() + j] == self.rejected@[j as int]);
            if self.rejected[j].syntax == syntax {
                return Some(&self.rejected[j]);
            }
            j += 1;
        }
        None
    }
}

/// The first candidate for a syntax, from position `i` on.
pub open spec fn first_from(s: Seq<Candidate>, syntax: Syntax, i: int) -> Option<int>
    decreases s.len() - i,
{
    if i < 0 || i >= s.len() {
        None
    } else if s[i].syntax == syntax {
        Some(i)
    } else {
        first_from(s, syntax, i + 1)
    }
}

pub open spec fn first_of(s: Seq<Candidate>, syntax: Syntax) -> Option<int> {
    first_from(s, syntax, 0)
}

// ---------------------------------------------------------------------
// Laws
// ---------------------------------------------------------------------

pub open spec fn all_scored(s: Seq<Candidate>) -> bool {
    forall|i: int| 0 <= i < s.len() ==> !(#[trigger] s[i]).bits.nan()
}

/// Best first.
pub open spec fn falls(s: Seq<Candidate>) -> bool {
    forall|i: int, j: int|
        0 <= i < j < s.len() ==> (#[trigger] s[j]).bits.le((#[trigger] s[i]).bits)
}

proof fn lemma_insert_ranked(s: Seq<Candidate>, e: Candidate)
    requires
        all_scored(s),
        falls(s),
        !e.bits.nan(),
    ensures
        insert_ranked(s, e).len() == s.len() + 1,
        insert_ranked(s, e).to_multiset() == s.to_multiset().insert(e),
        all_scored(insert_ranked(s, e)),
        falls(insert_ranked(s, e)),
        forall|i: int|
            0 <= i <= s.len() ==> #[trigger] insert_ranked(s, e)[i] == e || s.contains(
                insert_ranked(s, e)[i],
            ),
    decreases s.len(),
{
    s.to_multiset_ensures();
    if s.len() > 0 && s.last().bits.lt(e.bits) {
        let front = s.drop_last();
        assert(all_scored(front)) by {
            assert forall|i: int| 0 <= i < front.len() implies !(#[trigger] front[i]).bits.nan() by {
                assert(front[i] == s[i]);
            }
        }
        assert(falls(front)) by {
            assert forall|i: int, j: int| 0 <= i < j < front.len() implies (
            #[trigger] front[j]).bits.le((#[trigger] front[i]).bits) by {
                assert(front[i] == s[i] && front[j] == s[j]);
            }
        }
        lemma_insert_ranked(front, e);
        let t = insert_ranked(front, e);
        t.to_multiset_ensures();
        front.to_multiset_ensures();
        assert(s =~= front.push(s.last()));
        let r = t.push(s.last());
        assert(r.to_multiset() =~= s.to_multiset().insert(e));
        assert forall|i: int| 0 <= i < t.len() implies s.last().bits.le((#[trigger] t[i]).bits) by {
            if t[i] != e {
                let k = choose|k: int| 0 <= k < front.len() && front[k] == t[i];
                assert(s[k] == t[i]);
                assert(s[s.len() - 1].bits.le(s[k].bits));
            }
        }
        assert forall|i: int, j: int| 0 <= i < j < r.len() implies (#[trigger] r[j]).bits.le(
            (#[trigger] r[i]).bits,
        ) by {
            assert(r[i] == t[i]);
            if j < t.len() {
                assert(r[j] == t[j]);
            }
        }
        assert forall|i: int| 0 <= i <= s.len() implies #[trigger] r[i] == e || s.contains(
            r[i],
        ) by {
            if i < t.len() {
                assert(r[i] == t[i]);
                if t[i] != e {
                    let k = choose|k: int| 0 <= k < front.len() && front[k] == t[i];
                    assert(s[k] == r[i]);
                }
            } else {
                assert(s[s.len() - 1] == r[i]);
            }
        }
        assert forall|i: int| 0 <= i < r.len() implies !(#[trigger] r[i]).bits.nan() by {
            if i < t.len() {
                assert(r[i] == t[i]);
            } else {
                assert(r[i] == s[s.len() - 1]);
            }
        }
    } else {
        let r = s.push(e);
        assert forall|i: int, j: int| 0 <= i < j < r.len() implies (#[trigger] r[j]).bits.le(
            (#[trigger] r[i]).bits,
        ) by {
            assert(r[i] == s[i]);
            if j < s.len() {
                assert(r[j] == s[j]);
            } else {
                assert(!s[i].bits.nan());
                if i < s.len() - 1 {
                    assert(s[s.len() - 1].bits.le(s[i].bits));
                }
            }
        }
        assert forall|i: int| 0 <= i <= s.len() implies #[trigger] r[i] == e || s.contains(
            r[i],
        ) by {
            if i < s.len() {
                assert(s[i] == r[i]);
            }
        }
    }
}

/// Ranking loses nothing and adds nothing, and puts the best first.
pub proof fn law_candidates_are_ranked(s: Seq<Candidate>)
    requires
        all_scored(s),
    ensures
        ranked(s).to_multiset() == s.to_multiset(),
        all_scored(ranked(s)),
        falls(ranked(s)),
    decreases s.len(),
{
    if s.len() > 0 {
        let front = s.drop_last();
        assert forall|i: int| 0 <= i < front.len() implies !(#[trigger] front[i]).bits.nan() by {
            assert(front[i] == s[i]);
        }
        law_candidates_are_ranked(front);
        assert(!s[s.len() - 1].bits.nan());
        lemma_insert_ranked(ranked(front), s.last());
        assert(s =~= front.push(s.last()));
        front.to_multiset_ensures();
    }
}

/// A better score has no lower confidence.
pub open spec fn graded(s: Seq<Candidate>) -> bool {
    forall|a: Candidate, b: Candidate|
        #![trigger s.contains(a), s.contains(b)]
        s.contains(a) && s.contains(b) && a.bits.le(b.bits) ==> a.confidence.le(b.confidence)
}

/// Highest confidence first.
pub open spec fn confidence_falls(s: Seq<Candidate>) -> bool {
    forall|i: int, j: int|
        0 <= i < j < s.len() ==> (#[trigger] s[j]).confidence.le((#[trigger] s[i]).confidence)
}

/// What is left of a sequence is in it, and in its order.
proof fn lemma_filter_falls(s: Seq<Candidate>, p: spec_fn(Candidate) -> bool)
    ensures
        forall|c: Candidate| #[trigger] s.filter(p).contains(c) ==> s.contains(c) && p(c),
        falls(s) ==> falls(s.filter(p)),
    decreases s.len(),
{
    reveal(Seq::filter);
    if s.len() > 0 {
        let front = s.drop_last();
        let kept = front.filter(p);
        let all = s.filter(p);
        lemma_filter_falls(front, p);
        assert forall|c: Candidate| #[trigger] all.contains(c) implies s.contains(c) && p(c) by {
            let k = choose|k: int| 0 <= k < all.len() && all[k] == c;
            if k < kept.len() {
                assert(kept[k] == c);
                assert(kept.contains(c));
                let m = choose|m: int| 0 <= m < front.len() && front[m] == c;
                assert(s[m] == c);
            } else {
                assert(s[s.len() - 1] == c);
            }
        }
        if falls(s) {
            assert forall|i: int, j: int| 0 <= i < j < front.len() implies (
            #[trigger] front[j]).bits.le((#[trigger] front[i]).bits) by {
                assert(front[i] == s[i] && front[j] == s[j]);
            }
            assert forall|i: int, j: int| 0 <= i < j < all.len() implies (
            #[trigger] all[j]).bits.le((#[trigger] all[i]).bits) by {
                assert(kept[i] == all[i]);
                if j < kept.len() {
                    assert(kept[j] == all[j]);
                } else {
                    assert(kept.contains(kept[i]));
                    let m = choose|m: int| 0 <= m < front.len() && front[m] == kept[i];
                    assert(s[m] == all[i]);
                    assert(s[s.len() - 1] == all[j]);
                }
            }
        }
    }
}

/// Of ranked candidates, those that cleared the floor and those that did not
/// are ranked too, by their scores and, where a better score has no lower
/// confidence, by their confidence; the ones are not below the floor, and the
/// others are.
pub proof fn law_both_sides_are_ranked(s: Seq<Candidate>, floor: Double)
    requires
        falls(s),
    ensures
        falls(s.filter(clears(floor))),
        falls(s.filter(fails(floor))),
        graded(s) ==> confidence_falls(s.filter(clears(floor))),
        graded(s) ==> confidence_falls(s.filter(fails(floor))),
        forall|i: int|
            0 <= i < s.filter(clears(floor)).len() ==> floor.le(
                (#[trigger] s.filter(clears(floor))[i]).confidence,
            ),
        forall|i: int|
            0 <= i < s.filter(fails(floor)).len() ==> {
                let c = (#[trigger] s.filter(fails(floor))[i]).confidence;
                !floor.le(c) && (!floor.nan() && !c.nan() ==> c.lt(floor))
            },
{
    let up = s.filter(clears(floor));
    let down = s.filter(fails(floor));
    lemma_filter_falls(s, clears(floor));
    lemma_filter_falls(s, fails(floor));
    assert forall|i: int| 0 <= i < up.len() implies floor.le((#[trigger] up[i]).confidence) by {
        assert(up.contains(up[i]));
    }
    assert forall|i: int| 0 <= i < down.len() implies {
        let c = (#[trigger] down[i]).confidence;
        !floor.le(c) && (!floor.nan() && !c.nan() ==> c.lt(floor))
    } by {
        assert(down.contains(down[i]));
    }
    if graded(s) {
        assert forall|i: int, j: int| 0 <= i < j < up.len() implies (
        #[trigger] up[j]).confidence.le((#[trigger] up[i]).confidence) by {
            assert(up.contains(up[i]) && up.contains(up[j]));
            assert(s.contains(up[i]) && s.contains(up[j]));
        }
        assert forall|i: int, j: int| 0 <= i < j < down.len() implies (
        #[trigger] down[j]).confidence.le((#[trigger] down[i]).confidence) by {
            assert(down.contains(down[i]) && down.contains(down[j]));
            assert(s.contains(down[i]) && s.contains(down[j]));
        }
    }
}

/// Every candidate is on one side of the confidence floor: what cleared it and
/// what did not are together all that was scored.
pub proof fn law_every_candidate_is_kept(s: Seq<Candidate>, floor: Double)
    ensures
        s.filter(clears(floor)).to_multiset().add(s.filter(fails(floor)).to_multiset())
            == s.to_multiset(),
        forall|i: int|
            0 <= i < s.filter(clears(floor)).len() ==> floor.le(
                (#[trigger] s.filter(clears(floor))[i]).confidence,
            ),
        forall|i: int|
            0 <= i < s.filter(fails(floor)).len() ==> !floor.le(
                (#[trigger] s.filter(fails(floor))[i]).confidence,
            ),
    decreases s.len(),
{
    reveal(Seq::filter);
    if s.len() > 0 {
        let front = s.drop_last();
        law_every_candidate_is_kept(front, floor);
        assert(s =~= front.push(s.last()));
        front.to_multiset_ensures();
        front.filter(clears(floor)).to_multiset_ensures();
        front.filter(fails(floor)).to_multiset_ensures();
        assert(s.filter(clears(floor)).to_multiset().add(s.filter(fails(floor)).to_multiset())
            =~= s.to_multiset());
    } else {
        s.to_multiset_ensures();
        assert(s.filter(clears(floor)) =~= s);
        assert(s.filter(fails(floor)) =~= s);
        assert(s.to_multiset().add(s.to_multiset()) =~= s.to_multiset());
    }
}

proof fn lemma_gated(n: int, units: u64, lines: u64, s: Syntax)
    requires
        0 <= n <= 12,
    ensures
        gated_syntaxes(n, units, lines).contains(s) <==> gated(s, units, lines) && exists|i: int|
            0 <= i < n && #[trigger] Syntax::nth(i) == s,
    decreases n,
{
    if n > 0 {
        lemma_gated(n - 1, units, lines, s);
        let before = gated_syntaxes(n - 1, units, lines);
        let all = gated_syntaxes(n, units, lines);
        let last = Syntax::nth(n - 1);
        if gated(last, units, lines) {
            assert(all[before.len() as int] == last);
            if before.contains(s) {
                let i = choose|i: int| 0 <= i < before.len() && before[i] == s;
                assert(all[i] == s);
            }
            if all.contains(s) && s != last {
                let i = choose|i: int| 0 <= i < all.len() && all[i] == s;
                assert(before[i] == s);
            }
        }
        if gated(s, units, lines) && exists|i: int| 0 <= i < n && #[trigger] Syntax::nth(i) == s {
            let i = choose|i: int| 0 <= i < n && #[trigger] Syntax::nth(i) == s;
            if i < n - 1 {
                assert(Syntax::nth(i) == s);
            }
        }
    }
}

/// Every syntax is judged where there are sixteen bytes or more; but one that
/// goes by lines only where there are three of them or more.
pub proof fn law_every_syntax_is_judged(s: Syntax, units: u64, lines: u64)
    ensures
        gated_syntaxes(12, units, lines).contains(s) <==> units >= 16 && match s {
            Syntax::JsonLines
            | Syntax::Csv
            | Syntax::Tsv
            | Syntax::Yaml
            | Syntax::Ini
            | Syntax::LogLines => lines >= 3,
            _ => true,
        },
{
    lemma_gated(12, units, lines, s);
    assert(Syntax::nth(0) == Syntax::Json);
    assert(Syntax::nth(1) == Syntax::JsonLines);
    assert(Syntax::nth(2) == Syntax::Csv);
    assert(Syntax::nth(3) == Syntax::Tsv);
    assert(Syntax::nth(4) == Syntax::Xml);
    assert(Syntax::nth(5) == Syntax::UrlEncoded);
    assert(Syntax::nth(6) == Syntax::Base64);
    assert(Syntax::nth(7) == Syntax::Hex);
    assert(Syntax::nth(8) == Syntax::Yaml);
    assert(Syntax::nth(9) == Syntax::Ini);
    assert(Syntax::nth(10) == Syntax::LogLines);
    assert(Syntax::nth(11) == Syntax::OpaqueBinary);
}

/// A confidence that is as high as the floor is enough, and one that is lower
/// is not; every candidate is on one side.
pub proof fn law_the_floor_is_enough(floor: Double, c: Candidate)
    ensures
        !floor.nan() && c.confidence == floor ==> clears(floor)(c),
        c.confidence.lt(floor) ==> fails(floor)(c),
        floor.lt(c.confidence) ==> clears(floor)(c),
        clears(floor)(c) != fails(floor)(c),
{
}

/// Lines are mostly scalars where there are three or more, and for each one
/// that is none there are more than nine that are.
pub proof fn law_few_lines_are_no_scalars(scalars: int, others: int)
    requires
        scalars >= 0,
        others >= 0,
    ensures
        mostly_scalars(scalars + others, scalars) <==> scalars + others >= 3 && scalars > 9 * others,
{
}

} // verus!
