//! Line geometry: what every line looks like, and how alike the lines are.
use crate::sniff::brace;
use crate::sniff::scalar;
use crate::tally;
use std::collections::BTreeMap;
use vstd::prelude::*;

verus! {

/// Candidate field delimiters, in the order in which cadences are reported:
/// comma, tab, semicolon, bar.
pub const DELIMITERS: [u8; 4] = [0x2c, 0x09, 0x3b, 0x7c];

/// Maximum bytes of a single line buffered for the bare-scalar check.
/// Everything else about a line is tracked with counters, so a stream whose
/// one line is forty gigabytes costs this much and no more.
pub const LINE_BUF_CAP: usize = 4096;

pub const CADENCE_HIST_CAP: usize = 128;

pub const INDENT_CAP: usize = 64;

pub open spec fn delimiter(k: int) -> u8 {
    if k == 0 {
        0x2c
    } else if k == 1 {
        0x09
    } else if k == 2 {
        0x3b
    } else {
        0x7c
    }
}

// ---------------------------------------------------------------------
// Cadence
// ---------------------------------------------------------------------

#[verifier::ext_equal]
pub struct CadenceView {
    pub delim: u8,
    pub lines: u64,
    pub hist: Map<u32, u64>,
}

impl CadenceView {
    pub open spec fn empty(delim: u8) -> CadenceView {
        CadenceView { delim, lines: 0, hist: Map::empty() }
    }

    /// A line with `count` delimiters.
    pub open spec fn observe(self, count: u32) -> CadenceView {
        CadenceView {
            delim: self.delim,
            lines: (self.lines + 1) as u64,
            hist: tally::bumped(self.hist, count, CADENCE_HIST_CAP as int),
        }
    }

    pub open spec fn wf(self) -> bool {
        &&& self.hist.dom().finite()
        &&& self.hist.len() <= CADENCE_HIST_CAP
        &&& forall|k: u32| #[trigger] self.hist.contains_key(k) ==> self.hist[k] <= self.lines
    }

    /// `k` is the most common count per line, and the smallest such.
    pub open spec fn is_modal(self, k: u32) -> bool {
        &&& self.hist.contains_key(k)
        &&& forall|j: u32| #[trigger]
            self.hist.contains_key(j) ==> self.hist[j] < self.hist[k] || (self.hist[j]
                == self.hist[k] && k <= j)
    }
}

proof fn lemma_observe_cadence(c: CadenceView, count: u32)
    requires
        c.wf(),
        c.lines < u64::MAX,
    ensures
        c.observe(count).wf(),
{
    let after = c.observe(count);
    assert(after.hist.dom() =~= c.hist.dom() || after.hist.dom() =~= c.hist.dom().insert(count));
    if c.hist.contains_key(count) {
        assert(after.hist.dom() =~= c.hist.dom());
    }
}

/// Per-line count distribution for one candidate delimiter.
///
/// The discriminating signal is *agreement*, not frequency: prose is full of
/// commas, but prose lines do not all contain exactly the same number of
/// them.
#[derive(Debug)]
pub struct Cadence {
    pub delim: u8,
    pub lines: u64,
    hist: BTreeMap<u32, u64>,
}

impl View for Cadence {
    type V = CadenceView;

    closed spec fn view(&self) -> CadenceView {
        CadenceView { delim: self.delim, lines: self.lines, hist: self.hist@ }
    }
}

impl Cadence {
    pub fn new(delim: u8) -> (c: Self)
        ensures
            c@ == CadenceView::empty(delim),
            c@.wf(),
    {
        Cadence { delim, lines: 0, hist: BTreeMap::new() }
    }

    pub fn delimiter(&self) -> (d: u8)
        ensures
            d == self@.delim,
    {
        self.delim
    }

    /// Counts a line. Past the cap on distinct counts the line is only
    /// counted, which is only reachable where the counts are scattered.
    pub fn observe(&mut self, count: u32)
        requires
            old(self)@.wf(),
            old(self)@.lines < u64::MAX,
        ensures
            final(self)@ == old(self)@.observe(count),
            final(self)@.wf(),
    {
        proof {
            lemma_observe_cadence(self@, count);
        }
        tally::bump(&mut self.hist, count, CADENCE_HIST_CAP);
        self.lines += 1;
    }

    /// The most common per-line count and how many lines carried it.
    pub fn modal(&self) -> (r: Option<(u32, u64)>)
        ensures
            match r {
                None => self@.hist.dom() =~= Set::empty(),
                Some((k, n)) => self@.is_modal(k) && n == self@.hist[k],
            },
    {
        let v = tally::entries(&self.hist);
        if v.len() == 0 {
            assert forall|k: u32| !self@.hist.contains_key(k) by {}
            return None;
        }
        let mut best: usize = 0;
        let mut i: usize = 1;
        while i < v.len()
            invariant
                best < i <= v@.len(),
                tally::ascending_entries(self.hist@, v@),
                forall|j: int|
                    0 <= j < i ==> (#[trigger] v@[j]).1 < v@[best as int].1 || (v@[j].1
                        == v@[best as int].1 && v@[best as int].0 <= v@[j].0),
            decreases v@.len() - i,
        {
            if v[i].1 > v[best].1 {
                best = i;
            }
            i += 1;
        }
        let (k, n) = v[best];
        assert(self@.is_modal(k)) by {
            assert forall|j: u32| #[trigger] self@.hist.contains_key(j) implies self@.hist[j]
                < self@.hist[k] || (self@.hist[j] == self@.hist[k] && k <= j) by {
                let m = choose|m: int| 0 <= m < v@.len() && (#[trigger] v@[m]).0 == j;
                assert(v@[m].1 == self.hist@[j]);
            }
        }
        Some((k, n))
    }

    pub fn duplicate(&self) -> (r: Self)
        ensures
            r@ == self@,
    {
        Cadence { delim: self.delim, lines: self.lines, hist: self.hist.clone() }
    }
}

// ---------------------------------------------------------------------
// One line
// ---------------------------------------------------------------------

#[verifier::ext_equal]
pub struct LineView {
    pub len: u64,
    pub indent: u32,
    pub in_indent: bool,
    pub lead: Option<u8>,
    pub last: Option<u8>,
    pub last_before: Option<u8>,
    pub saw_nonspace: bool,
    pub delims: Seq<u32>,
    pub in_quote: bool,
    pub quote_pending: bool,
    pub buf: Seq<u8>,
    pub buf_overflow: bool,
}

/// One more, up to the largest number there is.
pub open spec fn up(n: u32) -> u32 {
    if n < u32::MAX {
        (n + 1) as u32
    } else {
        n
    }
}

impl LineView {
    pub open spec fn fresh() -> LineView {
        LineView {
            len: 0,
            indent: 0,
            in_indent: true,
            lead: None,
            last: None,
            last_before: None,
            saw_nonspace: false,
            delims: seq![0, 0, 0, 0],
            in_quote: false,
            quote_pending: false,
            buf: Seq::empty(),
            buf_overflow: false,
        }
    }

    /// The geometry of the line behind one more byte.
    pub open spec fn geometry(self, b: u8) -> LineView {
        let blank = b == 0x20 || b == 0x09;
        let overflow = self.buf_overflow || self.buf.len() >= LINE_BUF_CAP;
        LineView {
            len: (self.len + 1) as u64,
            last_before: self.last,
            last: Some(b),
            saw_nonspace: self.saw_nonspace || !brace::spec_is_space(b),
            indent: if self.in_indent && blank {
                up(self.indent)
            } else {
                self.indent
            },
            in_indent: self.in_indent && blank,
            lead: if self.in_indent && !blank {
                Some(b)
            } else {
                self.lead
            },
            buf_overflow: overflow,
            buf: if overflow {
                Seq::empty()
            } else {
                self.buf.push(b)
            },
            ..self
        }
    }

    /// The delimiters of the line behind one more byte. They are counted
    /// outside quoted runs only; a doubled quote is an escaped quote.
    pub open spec fn quoting(self, b: u8) -> LineView {
        if self.quote_pending && b == 0x22 {
            LineView { quote_pending: false, ..self }
        } else {
            let in_quote = self.in_quote && !self.quote_pending;
            if b == 0x22 {
                LineView { in_quote: true, quote_pending: in_quote, ..self }
            } else {
                LineView {
                    in_quote,
                    quote_pending: false,
                    delims: if in_quote {
                        self.delims
                    } else {
                        Seq::new(
                            4,
                            |k: int|
                                if b == delimiter(k) {
                                    up(self.delims[k])
                                } else {
                                    self.delims[k]
                                },
                        )
                    },
                    ..self
                }
            }
        }
    }

    pub open spec fn step(self, b: u8) -> LineView {
        self.geometry(b).quoting(b)
    }

    pub open spec fn wf(self) -> bool {
        &&& self.delims.len() == 4
        &&& self.buf.len() <= LINE_BUF_CAP
        &&& self.buf_overflow ==> self.buf.len() == 0
        &&& self.last is None ==> self.len == 0
    }
}

#[derive(Debug)]
pub struct LineState {
    len: u64,
    indent: u32,
    in_indent: bool,
    lead: Option<u8>,
    last: Option<u8>,
    last_before: Option<u8>,
    saw_nonspace: bool,
    delims: [u32; 4],
    in_quote: bool,
    /// A quote was seen while inside a quoted run; whether it closed the run
    /// or was the first half of a doubled quote depends on the next byte.
    quote_pending: bool,
    buf: Vec<u8>,
    buf_overflow: bool,
}

impl View for LineState {
    type V = LineView;

    closed spec fn view(&self) -> LineView {
        LineView {
            len: self.len,
            indent: self.indent,
            in_indent: self.in_indent,
            lead: self.lead,
            last: self.last,
            last_before: self.last_before,
            saw_nonspace: self.saw_nonspace,
            delims: self.delims@,
            in_quote: self.in_quote,
            quote_pending: self.quote_pending,
            buf: self.buf@,
            buf_overflow: self.buf_overflow,
        }
    }
}

fn increment(n: u32) -> (r: u32)
    ensures
        r == up(n),
{
    if n < u32::MAX {
        n + 1
    } else {
        n
    }
}

impl LineState {
    pub fn fresh() -> (s: Self)
        ensures
            s@ == LineView::fresh(),
            s@.wf(),
    {
        let s = LineState {
            len: 0,
            indent: 0,
            in_indent: true,
            lead: None,
            last: None,
            last_before: None,
            saw_nonspace: false,
            delims: [0, 0, 0, 0],
            in_quote: false,
            quote_pending: false,
            buf: Vec::new(),
            buf_overflow: false,
        };
        assert(s@ =~= LineView::fresh());
        s
    }

    pub fn line_byte(&mut self, b: u8)
        requires
            old(self)@.wf(),
            old(self)@.len < u64::MAX,
        ensures
            final(self)@ == old(self)@.step(b),
            final(self)@.wf(),
    {
        self.see_geometry(b);
        self.see_quoting(b);
    }

    fn see_geometry(&mut self, b: u8)
        requires
            old(self)@.wf(),
            old(self)@.len < u64::MAX,
        ensures
            final(self)@ == old(self)@.geometry(b),
            final(self)@.wf(),
    {
        self.len += 1;
        self.last_before = self.last;
        self.last = Some(b);
        if !brace::is_space(b) {
            self.saw_nonspace = true;
        }
        if self.in_indent {
            if b == 0x20 || b == 0x09 {
                self.indent = increment(self.indent);
            } else {
                self.in_indent = false;
                self.lead = Some(b);
            }
        }
        if !self.buf_overflow {
            if self.buf.len() < LINE_BUF_CAP {
                self.buf.push(b);
            } else {
                self.buf_overflow = true;
                self.buf = Vec::new();
            }
        }
        assert(self@ =~= old(self)@.geometry(b));
    }

    fn see_quoting(&mut self, b: u8)
        requires
            old(self)@.wf(),
        ensures
            final(self)@ == old(self)@.quoting(b),
            final(self)@.wf(),
    {
        if self.quote_pending {
            self.quote_pending = false;
            if b == 0x22 {
                return ;
            }
            self.in_quote = false;
        }
        if b == 0x22 {
            if self.in_quote {
                self.quote_pending = true;
            } else {
                self.in_quote = true;
            }
            return ;
        }
        if !self.in_quote {
            if b == 0x2c {
                self.delims[0] = increment(self.delims[0]);
            } else if b == 0x09 {
                self.delims[1] = increment(self.delims[1]);
            } else if b == 0x3b {
                self.delims[2] = increment(self.delims[2]);
            } else if b == 0x7c {
                self.delims[3] = increment(self.delims[3]);
            }
        }
        assert(self@.delims =~= old(self)@.quoting(b).delims);
    }

    pub fn duplicate(&self) -> (r: Self)
        ensures
            r@ == self@,
    {
        let buf = vstd::slice::slice_to_vec(self.buf.as_slice());
        LineState {
            len: self.len,
            indent: self.indent,
            in_indent: self.in_indent,
            lead: self.lead,
            last: self.last,
            last_before: self.last_before,
            saw_nonspace: self.saw_nonspace,
            delims: self.delims,
            in_quote: self.in_quote,
            quote_pending: self.quote_pending,
            buf,
            buf_overflow: self.buf_overflow,
        }
    }
}

// ---------------------------------------------------------------------
// All lines
// ---------------------------------------------------------------------

#[verifier::ext_equal]
pub struct LinesView {
    pub lines: u64,
    pub blank_lines: u64,
    pub scalar_lines: u64,
    pub line_lead: Seq<u64>,
    pub line_last: Seq<u64>,
    pub len_sum: u64,
    pub len_sq: u128,
    pub indents: Map<u32, u64>,
    pub cadence: Seq<CadenceView>,
}

pub open spec fn raised(counts: Seq<u64>, b: u8) -> Seq<u64> {
    counts.update(b as int, (counts[b as int] + 1) as u64)
}

/// A trailing CR belongs to the line terminator, not the line.
pub open spec fn line_length(line: LineView) -> u64 {
    if line.last == Some(0x0du8) && line.len > 0 {
        (line.len - 1) as u64
    } else {
        line.len
    }
}

pub open spec fn line_end(line: LineView) -> Option<u8> {
    if line.last == Some(0x0du8) {
        line.last_before
    } else {
        line.last
    }
}

impl LinesView {
    pub open spec fn empty() -> LinesView {
        LinesView {
            lines: 0,
            blank_lines: 0,
            scalar_lines: 0,
            line_lead: Seq::new(256, |i: int| 0u64),
            line_last: Seq::new(256, |i: int| 0u64),
            len_sum: 0,
            len_sq: 0,
            indents: Map::empty(),
            cadence: Seq::new(4, |k: int| CadenceView::empty(delimiter(k))),
        }
    }

    /// The totals behind the end of a line.
    pub open spec fn end_line(self, line: LineView) -> LinesView {
        if !line.saw_nonspace {
            LinesView { blank_lines: (self.blank_lines + 1) as u64, ..self }
        } else {
            let l = line_length(line);
            LinesView {
                lines: (self.lines + 1) as u64,
                blank_lines: self.blank_lines,
                len_sum: (self.len_sum + l) as u64,
                len_sq: (self.len_sq + l * l) as u128,
                indents: tally::bumped(self.indents, line.indent, INDENT_CAP as int),
                line_lead: raised(
                    self.line_lead,
                    match line.lead {
                        Some(b) => b,
                        None => 0x20,
                    },
                ),
                line_last: match line_end(line) {
                    Some(b) => raised(self.line_last, b),
                    None => self.line_last,
                },
                cadence: Seq::new(4, |k: int| self.cadence[k].observe(line.delims[k])),
                scalar_lines: if !line.buf_overflow && scalar::json_scalar(
                    scalar::trimmed(line.buf),
                ) {
                    (self.scalar_lines + 1) as u64
                } else {
                    self.scalar_lines
                },
            }
        }
    }

    /// The counts are those of lines with `bytes` bytes in all, and the
    /// histograms stay within their caps.
    pub open spec fn wf(self, bytes: int) -> bool {
        &&& self.lines + self.blank_lines <= u64::MAX
        &&& self.scalar_lines <= self.lines
        &&& self.line_lead.len() == 256
        &&& self.line_last.len() == 256
        &&& forall|i: int| 0 <= i < 256 ==> #[trigger] self.line_lead[i] <= self.lines
        &&& forall|i: int| 0 <= i < 256 ==> #[trigger] self.line_last[i] <= self.lines
        &&& self.len_sum <= bytes
        &&& self.len_sq <= self.len_sum * self.len_sum
        &&& self.indents.dom().finite()
        &&& self.indents.len() <= INDENT_CAP
        &&& forall|k: u32| #[trigger] self.indents.contains_key(k) ==> self.indents[k] <= self.lines
        &&& self.cadence.len() == 4
        &&& forall|k: int|
            0 <= k < 4 ==> (#[trigger] self.cadence[k]).wf() && self.cadence[k].lines == self.lines
                && self.cadence[k].delim == delimiter(k)
    }
}

proof fn lemma_square_sum(a: int, l: int)
    requires
        0 <= a,
        0 <= l,
    ensures
        a * a + l * l <= (a + l) * (a + l),
        0 <= l * l,
{
    assert(a * a + l * l <= (a + l) * (a + l)) by (nonlinear_arith)
        requires
            0 <= a,
            0 <= l,
    ;
    assert(0 <= l * l) by (nonlinear_arith);
}

pub proof fn lemma_end_line(s: LinesView, line: LineView, bytes: int)
    requires
        s.wf(bytes),
        line.wf(),
        s.len_sum + line.len <= bytes <= i64::MAX,
        s.lines + s.blank_lines < u64::MAX,
    ensures
        s.end_line(line).wf(bytes),
        s.end_line(line).len_sum <= s.len_sum + line.len,
        s.end_line(line).lines + s.end_line(line).blank_lines == s.lines + s.blank_lines + 1,
{
    let t = s.end_line(line);
    if line.saw_nonspace {
        let l = line_length(line);
        lemma_square_sum(s.len_sum as int, l as int);
        let m = s.len_sum + l;
        assert(m * m <= i64::MAX * i64::MAX) by (nonlinear_arith)
            requires
                0 <= m <= i64::MAX,
        ;
        assert forall|k: int| 0 <= k < 4 implies (#[trigger] t.cadence[k]).wf()
            && t.cadence[k].lines == t.lines && t.cadence[k].delim == delimiter(k) by {
            lemma_observe_cadence(s.cadence[k], line.delims[k]);
        }
        if s.indents.contains_key(line.indent) {
            assert(t.indents.dom() =~= s.indents.dom());
        }
    }
}

/// The counts over all lines.
#[derive(Debug)]
pub struct Lines {
    pub lines: u64,
    pub blank_lines: u64,
    pub scalar_lines: u64,
    pub line_lead: [u64; 256],
    pub line_last: [u64; 256],
    pub len_sum: u64,
    pub len_sq: u128,
    pub indents: BTreeMap<u32, u64>,
    pub cadence: Vec<Cadence>,
}

impl View for Lines {
    type V = LinesView;

    open spec fn view(&self) -> LinesView {
        LinesView {
            lines: self.lines,
            blank_lines: self.blank_lines,
            scalar_lines: self.scalar_lines,
            line_lead: self.line_lead@,
            line_last: self.line_last@,
            len_sum: self.len_sum,
            len_sq: self.len_sq,
            indents: self.indents@,
            cadence: self.cadence@.map_values(|c: Cadence| c@),
        }
    }
}

impl Lines {
    pub fn new() -> (s: Self)
        ensures
            s@ == LinesView::empty(),
            s@.wf(0),
    {
        let mut cadence: Vec<Cadence> = Vec::new();
        cadence.push(Cadence::new(0x2c));
        cadence.push(Cadence::new(0x09));
        cadence.push(Cadence::new(0x3b));
        cadence.push(Cadence::new(0x7c));
        let s = Lines {
            lines: 0,
            blank_lines: 0,
            scalar_lines: 0,
            line_lead: [0; 256],
            line_last: [0; 256],
            len_sum: 0,
            len_sq: 0,
            indents: BTreeMap::new(),
            cadence,
        };
        assert(s@.cadence =~= LinesView::empty().cadence);
        assert(s@.line_lead =~= LinesView::empty().line_lead);
        assert(s@.line_last =~= LinesView::empty().line_last);
        s
    }

    pub(crate) fn end_line(&mut self, line: &LineState, Ghost(bytes): Ghost<int>)
        requires
            old(self)@.wf(bytes),
            line@.wf(),
            old(self)@.len_sum + line@.len <= bytes <= i64::MAX,
            old(self)@.lines + old(self)@.blank_lines < u64::MAX,
        ensures
            final(self)@ == old(self)@.end_line(line@),
            final(self)@.wf(bytes),
    {
        proof {
            lemma_end_line(self@, line@, bytes);
        }
        if !line.saw_nonspace {
            self.blank_lines += 1;
            return ;
        }
        let ghost start = self@;
        let ended_by_cr: bool = match line.last {
            Some(b) => b == 0x0d,
            None => false,
        };
        let len: u64 = if ended_by_cr && line.len > 0 {
            line.len - 1
        } else {
            line.len
        };
        let last: Option<u8> = if ended_by_cr {
            line.last_before
        } else {
            line.last
        };
        proof {
            let a = self.len_sum as int;
            lemma_square_sum(a, len as int);
            assert((a + len) * (a + len) <= i64::MAX * i64::MAX) by (nonlinear_arith)
                requires
                    0 <= a + len <= i64::MAX,
            ;
            assert(len as u128 * len as u128 <= i64::MAX * i64::MAX) by (nonlinear_arith)
                requires
                    0 <= len <= i64::MAX,
            ;
        }
        self.len_sq += len as u128 * len as u128;
        self.len_sum += len;
        tally::bump(&mut self.indents, line.indent, INDENT_CAP);
        let lead: u8 = match line.lead {
            Some(b) => b,
            None => 0x20,
        };
        let n: u64 = self.line_lead[lead as usize];
        self.line_lead[lead as usize] = n + 1;
        if let Some(b) = last {
            let m: u64 = self.line_last[b as usize];
            self.line_last[b as usize] = m + 1;
        }
        let mut k: usize = 0;
        while k < 4
            invariant
                k <= 4,
                line@.wf(),
                self.cadence@.len() == 4,
                start.lines < u64::MAX,
                start.cadence.len() == 4,
                forall|j: int|
                    0 <= j < 4 ==> (#[trigger] start.cadence[j]).wf() && start.cadence[j].lines
                        == start.lines,
                forall|j: int|
                    0 <= j < k ==> (#[trigger] self.cadence@[j])@ == start.cadence[j].observe(
                        line@.delims[j],
                    ),
                forall|j: int| k <= j < 4 ==> (#[trigger] self.cadence@[j])@ == start.cadence[j],
                self@ == (LinesView { cadence: self@.cadence, ..self@ }),
                self.lines == start.lines,
                self.blank_lines == start.blank_lines,
                self.scalar_lines == start.scalar_lines,
                self.len_sum == start.len_sum + len,
                self.len_sq == start.len_sq + len * len,
                self.indents@ == tally::bumped(start.indents, line.indent, INDENT_CAP as int),
                self.line_lead@ == raised(start.line_lead, lead),
                self.line_last@ == (match last {
                    Some(b) => raised(start.line_last, b),
                    None => start.line_last,
                }),
            decreases 4 - k,
        {
            let count: u32 = line.delims[k];
            let ghost c = self.cadence@[k as int]@;
            assert(c == start.cadence[k as int]);
            self.cadence[k].observe(count);
            k += 1;
        }
        let (a, b) = scalar::trim_ascii(&line.buf);
        let body = vstd::slice::slice_to_vec(
            vstd::slice::slice_subrange(line.buf.as_slice(), a, b),
        );
        if !line.buf_overflow && scalar::is_json_scalar(&body) {
            self.scalar_lines += 1;
        }
        self.lines += 1;
        assert(self@.cadence =~= start.end_line(line@).cadence);
        assert(self@ =~= start.end_line(line@));
    }

    pub fn duplicate(&self) -> (r: Self)
        requires
            self.cadence@.len() == 4,
        ensures
            r@ == self@,
    {
        let mut cadence: Vec<Cadence> = Vec::new();
        cadence.push(self.cadence[0].duplicate());
        cadence.push(self.cadence[1].duplicate());
        cadence.push(self.cadence[2].duplicate());
        cadence.push(self.cadence[3].duplicate());
        let r = Lines {
            lines: self.lines,
            blank_lines: self.blank_lines,
            scalar_lines: self.scalar_lines,
            line_lead: self.line_lead,
            line_last: self.line_last,
            len_sum: self.len_sum,
            len_sq: self.len_sq,
            indents: self.indents.clone(),
            cadence,
        };
        assert(r@.cadence =~= self@.cadence);
        r
    }
}

} // verus!
