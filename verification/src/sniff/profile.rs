//! The incremental, chunk-at-a-time profiler.
//!
//! Every per-byte statistic that spans more than one byte is carried across
//! chunk boundaries in explicit state, so the size of the chunks is
//! irrelevant to the result. The only thing that resets is at an explicit
//! boundary, which marks a genuine discontinuity in the underlying data.
use crate::sketch::{SketchView, SpaceSaving};
use crate::sniff::brace::{BraceScan, BraceState};
use crate::sniff::lines::{Cadence, LineState, LineView, Lines, LinesView};
use crate::sniff::ngram::{Grams, GramsView};
use std::collections::BTreeMap;
use vstd::prelude::*;

verus! {

#[verifier::ext_equal]
pub struct BuilderView {
    pub grams: GramsView,
    pub line: LineView,
    pub lines: LinesView,
    pub brace: BraceState,
    pub segments: int,
}

impl BuilderView {
    pub open spec fn fresh(bigram_cap: int, trigram_cap: Option<int>) -> BuilderView {
        BuilderView {
            grams: GramsView::empty(bigram_cap, trigram_cap),
            line: LineView::fresh(),
            lines: LinesView::empty(),
            brace: BraceState::fresh(),
            segments: 0,
        }
    }

    /// The profile behind one more byte.
    pub open spec fn step(self, b: u8) -> BuilderView {
        BuilderView {
            grams: self.grams.step(b),
            line: if b == 0x0a {
                LineView::fresh()
            } else {
                self.line.step(b)
            },
            lines: if b == 0x0a {
                self.lines.end_line(self.line)
            } else {
                self.lines
            },
            brace: self.brace.step(b),
            segments: self.segments,
        }
    }

    /// The profile behind a run of bytes.
    pub open spec fn run(self, bytes: Seq<u8>) -> BuilderView
        decreases bytes.len(),
    {
        if bytes.len() == 0 {
            self
        } else {
            self.run(bytes.drop_last()).step(bytes.last())
        }
    }

    /// The profile behind a discontinuity: the partial line is flushed, the
    /// bracket scan closed out, and no gram spans the seam.
    pub open spec fn boundary(self) -> BuilderView {
        BuilderView {
            grams: GramsView { recent: Seq::empty(), ..self.grams },
            line: LineView::fresh(),
            lines: self.lines.end_line(self.line),
            brace: self.brace.boundary(),
            segments: self.segments + 1,
        }
    }

    /// The measurements are those of `units` bytes in some number of
    /// segments, and everything that is capped is within its cap.
    pub open spec fn wf(self) -> bool {
        &&& self.grams.wf()
        &&& self.grams.units <= i64::MAX
        &&& self.line.wf()
        &&& self.lines.wf(self.grams.units as int)
        &&& self.lines.len_sum + self.line.len <= self.grams.units
        &&& self.lines.lines + self.lines.blank_lines <= self.grams.units + self.segments
        &&& self.brace.bounded(self.grams.units as int)
        &&& 0 <= self.segments
    }

    pub open spec fn profile(self) -> ProfileView {
        let end = self.boundary();
        ProfileView {
            units: end.grams.units,
            unigram: end.grams.unigram,
            first_nonspace: end.grams.first_nonspace,
            bigram: end.grams.bigram,
            trigram: end.grams.trigram,
            lines: end.lines,
            brace: end.brace.scan,
            segments: end.segments,
        }
    }
}

#[verifier::ext_equal]
pub struct ProfileView {
    pub units: u64,
    pub unigram: Seq<u64>,
    pub first_nonspace: Option<u8>,
    pub bigram: SketchView<Seq<u8>>,
    pub trigram: Option<SketchView<Seq<u8>>>,
    pub lines: LinesView,
    pub brace: BraceScan,
    pub segments: int,
}

/// Everything a fingerprint is allowed to look at.
#[derive(Debug)]
pub struct NgramProfile {
    /// Normalized bytes actually profiled (after sampling).
    pub units: u64,
    pub unigram: [u64; 256],
    pub bigram: SpaceSaving<[u8; 2]>,
    pub trigram: Option<SpaceSaving<[u8; 3]>>,
    pub lines: u64,
    pub blank_lines: u64,
    /// Non-blank lines that are, in their entirety, a single JSON scalar
    /// literal.
    pub scalar_lines: u64,
    pub line_lead: [u64; 256],
    pub line_last: [u64; 256],
    /// The sum of the lengths of the non-blank lines, and of their squares.
    pub line_len_sum: u64,
    pub line_len_sq: u128,
    /// Leading-whitespace width histogram over non-blank lines, capped.
    pub indents: BTreeMap<u32, u64>,
    pub cadence: Vec<Cadence>,
    pub brace: BraceScan,
    pub first_nonspace: Option<u8>,
    /// How many sampled windows fed this profile. More than one means
    /// bracket balance is approximate at the seams.
    pub segments: u64,
}

impl View for NgramProfile {
    type V = ProfileView;

    open spec fn view(&self) -> ProfileView {
        ProfileView {
            units: self.units,
            unigram: self.unigram@,
            first_nonspace: self.first_nonspace,
            bigram: self.bigram@,
            trigram: match self.trigram {
                Some(t) => Some(t@),
                None => None,
            },
            lines: LinesView {
                lines: self.lines,
                blank_lines: self.blank_lines,
                scalar_lines: self.scalar_lines,
                line_lead: self.line_lead@,
                line_last: self.line_last@,
                len_sum: self.line_len_sum,
                len_sq: self.line_len_sq,
                indents: self.indents@,
                cadence: self.cadence@.map_values(|c: Cadence| c@),
            },
            brace: self.brace,
            segments: self.segments as int,
        }
    }
}

/// The incremental profiler.
#[derive(Debug)]
pub struct ProfileBuilder {
    grams: Grams,
    line: LineState,
    lines: Lines,
    brace: BraceState,
    segments: u64,
}

impl View for ProfileBuilder {
    type V = BuilderView;

    closed spec fn view(&self) -> BuilderView {
        BuilderView {
            grams: self.grams@,
            line: self.line@,
            lines: self.lines@,
            brace: self.brace,
            segments: self.segments as int,
        }
    }
}

pub open spec fn cap_view(cap: Option<usize>) -> Option<int> {
    match cap {
        Some(c) => Some(c as int),
        None => None,
    }
}

pub proof fn lemma_step_wf(s: BuilderView, b: u8)
    requires
        s.wf(),
        s.grams.units + s.segments < i64::MAX,
    ensures
        s.step(b).wf(),
        s.step(b).grams.units == s.grams.units + 1,
        s.step(b).segments == s.segments,
{
    crate::sniff::ngram::lemma_grams_step(s.grams, b);
    crate::sniff::brace::lemma_step_bounded(s.brace, b, s.grams.units as int);
    if b == 0x0a {
        crate::sniff::lines::lemma_end_line(s.lines, s.line, s.grams.units as int);
    }
}

pub proof fn lemma_boundary_wf(s: BuilderView)
    requires
        s.wf(),
        s.grams.units + s.segments < i64::MAX,
    ensures
        s.boundary().wf(),
{
    crate::sniff::brace::lemma_boundary_bounded(s.brace, s.grams.units as int);
    crate::sniff::lines::lemma_end_line(s.lines, s.line, s.grams.units as int);
}

impl ProfileBuilder {
    pub closed spec fn wf(self) -> bool {
        self@.wf() && self.grams.reg_wf()
    }

    pub fn new(bigram_cap: usize, trigram_cap: Option<usize>) -> (p: Self)
        ensures
            p.wf(),
            p@.wf(),
            p@ == BuilderView::fresh(bigram_cap as int, cap_view(trigram_cap)),
    {
        ProfileBuilder {
            grams: Grams::new(bigram_cap, trigram_cap),
            line: LineState::fresh(),
            lines: Lines::new(),
            brace: BraceState::new(),
            segments: 0,
        }
    }

    pub(crate) fn push_byte(&mut self, b: u8)
        requires
            old(self).wf(),
            old(self)@.grams.units + old(self)@.segments < i64::MAX,
        ensures
            final(self).wf(),
            final(self)@ == old(self)@.step(b),
            final(self)@.grams.units == old(self)@.grams.units + 1,
            final(self)@.segments == old(self)@.segments,
    {
        proof {
            lemma_step_wf(self@, b);
        }
        let ghost n = self@.grams.units as int;
        self.grams.see(b);
        if b == 0x0a {
            self.end_line(Ghost(n));
        } else {
            self.line.line_byte(b);
        }
        self.brace.brace_byte(b, Ghost(n));
    }

    fn end_line(&mut self, Ghost(n): Ghost<int>)
        requires
            old(self).line@.wf(),
            old(self).lines@.wf(n),
            old(self).lines@.len_sum + old(self).line@.len <= n <= i64::MAX,
            old(self).lines@.lines + old(self).lines@.blank_lines < u64::MAX,
        ensures
            final(self).line@ == LineView::fresh(),
            final(self).lines@ == old(self).lines@.end_line(old(self).line@),
            final(self).grams == old(self).grams,
            final(self).brace == old(self).brace,
            final(self).segments == old(self).segments,
    {
        self.lines.end_line(&self.line, Ghost(n));
        self.line = LineState::fresh();
    }

    /// Feeds a chunk. Chunk size is irrelevant to the result.
    pub fn push(&mut self, chunk: &[u8])
        requires
            old(self).wf(),
            old(self)@.grams.units + old(self)@.segments + chunk@.len() <= i64::MAX,
        ensures
            final(self).wf(),
            final(self)@ == old(self)@.run(chunk@),
            final(self)@.grams.units == old(self)@.grams.units + chunk@.len(),
            final(self)@.segments == old(self)@.segments,
    {
        let mut i: usize = 0;
        assert(chunk@.take(0) =~= Seq::<u8>::empty());
        while i < chunk.len()
            invariant
                i <= chunk@.len(),
                self.wf(),
                self@ == old(self)@.run(chunk@.take(i as int)),
                self@.grams.units == old(self)@.grams.units + i,
                self@.segments == old(self)@.segments,
                old(self)@.grams.units + old(self)@.segments + chunk@.len() <= i64::MAX,
            decreases chunk@.len() - i,
        {
            let ghost upto = chunk@.take(i + 1);
            assert(upto.drop_last() =~= chunk@.take(i as int));
            assert(upto.last() == chunk@[i as int]);
            self.push_byte(chunk[i]);
            i += 1;
        }
        assert(chunk@.take(i as int) =~= chunk@);
    }

    /// Marks a discontinuity: the next byte pushed does not follow the
    /// previous one.
    pub fn boundary(&mut self)
        requires
            old(self).wf(),
            old(self)@.grams.units + old(self)@.segments < i64::MAX,
        ensures
            final(self).wf(),
            final(self)@ == old(self)@.boundary(),
    {
        proof {
            lemma_boundary_wf(self@);
        }
        let ghost n = self@.grams.units as int;
        self.end_line(Ghost(n));
        self.brace.close(Ghost(n));
        self.grams.cut();
        self.segments += 1;
        assert(self@ =~= old(self)@.boundary());
    }

    /// Closes the trailing segment and hands out the profile.
    pub fn finish(self) -> (p: NgramProfile)
        requires
            self.wf(),
            self@.grams.units + self@.segments < i64::MAX,
        ensures
            p@ == self@.profile(),
    {
        let mut s = self;
        s.boundary();
        let ghost end = s@;
        let (units, unigram, first_nonspace, bigram, trigram) = s.grams.into_counts();
        let p = NgramProfile {
            units,
            unigram,
            bigram,
            trigram,
            lines: s.lines.lines,
            blank_lines: s.lines.blank_lines,
            scalar_lines: s.lines.scalar_lines,
            line_lead: s.lines.line_lead,
            line_last: s.lines.line_last,
            line_len_sum: s.lines.len_sum,
            line_len_sq: s.lines.len_sq,
            indents: s.lines.indents,
            cadence: s.lines.cadence,
            brace: s.brace.scan,
            first_nonspace,
            segments: s.segments,
        };
        assert(p@.lines =~= end.lines);
        assert(p@ =~= self@.profile());
        p
    }

    pub fn duplicate(&self) -> (r: Self)
        requires
            self.wf(),
        ensures
            r.wf(),
            r@ == self@,
    {
        ProfileBuilder {
            grams: self.grams.duplicate(),
            line: self.line.duplicate(),
            lines: self.lines.duplicate(),
            brace: self.brace,
            segments: self.segments,
        }
    }

    /// A finalized copy without consuming the builder, so a long-running
    /// stream can be interrogated mid-flight.
    pub fn snapshot(&self) -> (p: NgramProfile)
        requires
            self.wf(),
            self@.grams.units + self@.segments < i64::MAX,
        ensures
            p@ == self@.profile(),
    {
        self.duplicate().finish()
    }
}

impl NgramProfile {
    /// Profiles a fixed set of segments.
    pub fn build(segments: &[&[u8]], bigram_cap: usize, trigram_cap: Option<usize>) -> (p: Self)
        requires
            total_len(segments@) + segments@.len() < i64::MAX,
        ensures
            p@ == built(
                BuilderView::fresh(bigram_cap as int, cap_view(trigram_cap)),
                segments@,
            ).profile(),
    {
        let mut b = ProfileBuilder::new(bigram_cap, trigram_cap);
        let ghost start = b@;
        let mut i: usize = 0;
        assert(segments@.take(0) =~= Seq::<&[u8]>::empty());
        while i < segments.len()
            invariant
                i <= segments@.len(),
                b.wf(),
                b@ == built(start, segments@.take(i as int)),
                b@.grams.units == total_len(segments@.take(i as int)),
                0 <= b@.segments <= i,
                i > 0 ==> b@.segments < i,
                total_len(segments@) + segments@.len() < i64::MAX,
            decreases segments@.len() - i,
        {
            let ghost upto = segments@.take(i + 1);
            proof {
                assert(upto.drop_last() =~= segments@.take(i as int));
                assert(upto.last() == segments@[i as int]);
                lemma_total_len(segments@, i + 1);
            }
            if i > 0 {
                b.boundary();
            }
            b.push(segments[i]);
            i += 1;
        }
        assert(segments@.take(i as int) =~= segments@);
        b.finish()
    }

    pub fn count(&self, b: u8) -> (n: u64)
        ensures
            n == self@.unigram[b as int],
    {
        self.unigram[b as usize]
    }

    /// The cadence of a delimiter that is watched.
    pub fn cadence_for(&self, delim: u8) -> (r: Option<&Cadence>)
        ensures
            match r {
                None => forall|k: int|
                    0 <= k < self.cadence@.len() ==> (#[trigger] self.cadence@[k])@.delim != delim,
                Some(c) => exists|k: int|
                    {
                        &&& 0 <= k < self.cadence@.len()
                        &&& *c == #[trigger] self.cadence@[k]
                        &&& c@.delim == delim
                        &&& forall|j: int|
                            0 <= j < k ==> (#[trigger] self.cadence@[j])@.delim != delim
                    },
            },
    {
        let mut i: usize = 0;
        while i < self.cadence.len()
            invariant
                i <= self.cadence@.len(),
                forall|k: int| 0 <= k < i ==> (#[trigger] self.cadence@[k])@.delim != delim,
            decreases self.cadence@.len() - i,
        {
            if self.cadence[i].delimiter() == delim {
                return Some(&self.cadence[i]);
            }
            i += 1;
        }
        None
    }
}

/// The bytes in all segments.
pub open spec fn total_len(segments: Seq<&[u8]>) -> int
    decreases segments.len(),
{
    if segments.len() == 0 {
        0
    } else {
        total_len(segments.drop_last()) + segments.last()@.len()
    }
}

pub proof fn lemma_total_len(segments: Seq<&[u8]>, n: int)
    requires
        0 <= n <= segments.len(),
    ensures
        0 <= total_len(segments.take(n)) <= total_len(segments),
    decreases segments.len(),
{
    if n == segments.len() {
        assert(segments.take(n) =~= segments);
        if n > 0 {
            lemma_total_len(segments.drop_last(), n - 1);
        }
    } else {
        lemma_total_len(segments.drop_last(), n);
        assert(segments.drop_last().take(n) =~= segments.take(n));
    }
}

/// The builder behind a number of segments, with a discontinuity between any
/// two of them.
pub open spec fn built(start: BuilderView, segments: Seq<&[u8]>) -> BuilderView
    decreases segments.len(),
{
    if segments.len() == 0 {
        start
    } else {
        let before = built(start, segments.drop_last());
        (if segments.len() > 1 {
            before.boundary()
        } else {
            before
        }).run(segments.last()@)
    }
}

// ---------------------------------------------------------------------
// Laws
// ---------------------------------------------------------------------

/// A chunk edge is invisible: two chunks one after the other are profiled
/// like their concatenation.
pub proof fn law_profile_chunks(s: BuilderView, a: Seq<u8>, b: Seq<u8>)
    ensures
        s.run(a + b) == s.run(a).run(b),
    decreases b.len(),
{
    if b.len() == 0 {
        assert(a + b =~= a);
    } else {
        assert((a + b).drop_last() =~= a + b.drop_last());
        law_profile_chunks(s, a, b.drop_last());
    }
}

/// Memory is bounded whatever is pushed: the sketches stay within their caps
/// and the histograms and the line buffer within theirs.
pub proof fn law_profile_is_bounded(s: BuilderView, bytes: Seq<u8>)
    requires
        s.wf(),
        s.grams.units + s.segments + bytes.len() <= i64::MAX,
    ensures
        s.run(bytes).wf(),
        s.run(bytes).grams.units == s.grams.units + bytes.len(),
        s.run(bytes).segments == s.segments,
        s.run(bytes).grams.bigram.entries.len() <= s.grams.bigram.cap,
        s.run(bytes).grams.bigram.cap == s.grams.bigram.cap,
        s.run(bytes).lines.indents.len() <= crate::sniff::lines::INDENT_CAP,
        s.run(bytes).line.buf.len() <= crate::sniff::lines::LINE_BUF_CAP,
        forall|k: int|
            0 <= k < 4 ==> (#[trigger] s.run(bytes).lines.cadence[k]).hist.len()
                <= crate::sniff::lines::CADENCE_HIST_CAP,
    decreases bytes.len(),
{
    if bytes.len() > 0 {
        law_profile_is_bounded(s, bytes.drop_last());
        lemma_step_wf(s.run(bytes.drop_last()), bytes.last());
    }
}

/// The unigram table is exact: after a run it has grown by the number of
/// times that each byte occurs in the run.
pub proof fn law_unigrams_are_exact(s: BuilderView, bytes: Seq<u8>, b: u8)
    requires
        s.wf(),
        s.grams.units + s.segments + bytes.len() <= i64::MAX,
    ensures
        s.run(bytes).grams.unigram[b as int] == s.grams.unigram[b as int]
            + crate::sniff::alphabet::occurrences(bytes, b),
    decreases bytes.len(),
{
    if bytes.len() > 0 {
        let front = bytes.drop_last();
        law_unigrams_are_exact(s, front, b);
        law_profile_is_bounded(s, front);
    }
}

/// The bigram sketch is the sketch of the pairs of neighbouring bytes.
pub proof fn law_bigrams_are_sketched(bigram_cap: int, trigram_cap: Option<int>, bytes: Seq<u8>)
    requires
        bigram_cap >= 1,
        bytes.len() <= i64::MAX,
    ensures
        ({
            let s = BuilderView::fresh(bigram_cap, trigram_cap).run(bytes);
            let pairs = Seq::new(
                (if bytes.len() < 2 {
                    0
                } else {
                    bytes.len() - 1
                }) as nat,
                |i: int| seq![bytes[i], bytes[i + 1]],
            );
            &&& s.grams.bigram == SketchView::of(bigram_cap, pairs)
            &&& s.grams.recent == crate::sniff::ngram::tail(bytes, 3)
        }),
    decreases bytes.len(),
{
    let fresh = BuilderView::fresh(bigram_cap, trigram_cap);
    let n = bytes.len() as int;
    let pairs = Seq::new(
        (if n < 2 {
            0
        } else {
            n - 1
        }) as nat,
        |i: int| seq![bytes[i], bytes[i + 1]],
    );
    if n == 0 {
        assert(pairs =~= Seq::<Seq<u8>>::empty());
        assert(crate::sniff::ngram::tail(bytes, 3) =~= Seq::<u8>::empty());
    } else {
        let front = bytes.drop_last();
        law_bigrams_are_sketched(bigram_cap, trigram_cap, front);
        let front_pairs = Seq::new(
            (if n - 1 < 2 {
                0
            } else {
                n - 2
            }) as nat,
            |i: int| seq![front[i], front[i + 1]],
        );
        let recent = crate::sniff::ngram::tail(bytes, 3);
        assert(crate::sniff::ngram::tail(
            crate::sniff::ngram::tail(front, 3).push(bytes.last()),
            3,
        ) =~= recent);
        if n >= 2 {
            assert(pairs.drop_last() =~= front_pairs) by {
                assert forall|i: int| 0 <= i < front_pairs.len() implies pairs.drop_last()[i]
                    == front_pairs[i] by {
                    assert(front[i] == bytes[i]);
                    assert(front[i + 1] == bytes[i + 1]);
                }
            }
            assert(crate::sniff::ngram::tail(recent, 2) =~= pairs.last());
        } else {
            assert(pairs =~= front_pairs);
        }
    }
}

} // verus!
