//! Streaming front end: profile a bitstream of unbounded length.
//!
//! A `SniffStream` takes its input a chunk at a time in bounded memory, and
//! the chunk boundaries are invisible to the answer.
use crate::double::Double;
use crate::sniff::admission;
use crate::sniff::admission::{Admission, Phase};
use crate::sniff::alphabet;
use crate::sniff::alphabet::{Alphabet, RawStats};
use crate::sniff::fold;
use crate::sniff::fold::{Folder, FolderView};
use crate::sniff::profile;
use crate::sniff::profile::{BuilderView, NgramProfile, ProfileBuilder, ProfileView};
use crate::sniff::sample;
use crate::sniff::sample::Budget;
use vstd::prelude::*;

verus! {

/// Bytes buffered before the encoding decision is made. The decision needs a
/// prefix, and nothing can be normalized until it is made.
pub const HEAD_TARGET: usize = 8192;

/// Knobs for a sniff run.
#[derive(Clone, Copy, Debug)]
pub struct SniffPolicy {
    /// Space-Saving cap for the bigram sketch.
    pub bigram_cap: usize,
    /// Space-Saving cap for the trigram sketch; `None` disables trigrams.
    pub trigram_cap: Option<usize>,
    /// Candidates scoring below this are rejected.
    pub min_confidence: Double,
    pub budget: Budget,
}

impl SniffPolicy {
    /// The policy where none was chosen.
    pub open spec fn usual() -> SniffPolicy {
        SniffPolicy {
            bigram_cap: 256,
            trigram_cap: Some(256usize),
            min_confidence: Double { bits: 0x3fe3_3333_3333_3333 },
            budget: Budget { prefix: 65536, window: 32768, windows: 8, max_bytes: 1048576 },
        }
    }
}

impl Default for SniffPolicy {
    fn default() -> (p: Self)
        ensures
            p == SniffPolicy::usual(),
    {
        SniffPolicy {
            bigram_cap: 256,
            trigram_cap: Some(256),
            min_confidence: Double { bits: 0x3fe3_3333_3333_3333 },
            budget: Budget::default(),
        }
    }
}

impl SniffPolicy {
    pub open spec fn fresh_builder(self) -> BuilderView {
        BuilderView::fresh(self.bigram_cap as int, profile::cap_view(self.trigram_cap))
    }
}

/// What was measured of an input.
#[derive(Debug)]
pub struct Sniffed {
    pub alphabet: Alphabet,
    pub profile: NgramProfile,
    /// Bytes actually profiled, after the sampling budget.
    pub bytes_profiled: u64,
    /// Raw bytes handed to the sniffer.
    pub bytes_total: u64,
}

/// The first bytes of an input, by which its encoding is decided.
pub open spec fn head_of(bytes: Seq<u8>) -> Seq<u8> {
    bytes.take(fold::smaller(bytes.len() as int, HEAD_TARGET as int))
}

/// The normalizer of a stream, decided from its head.
pub open spec fn stream_folder(bytes: Seq<u8>) -> FolderView {
    let head = head_of(bytes);
    FolderView::fresh(alphabet::verdict(head, head).0, alphabet::bom_len(head))
}

/// The builder behind a stream of bytes.
pub open spec fn stream_builder(policy: SniffPolicy, bytes: Seq<u8>) -> BuilderView {
    admission::profiled(
        policy.fresh_builder(),
        Admission::fresh(policy.budget).admitted(stream_folder(bytes).out(bytes)),
    )
}

/// The sampling state behind a stream of bytes.
pub open spec fn stream_admission(policy: SniffPolicy, bytes: Seq<u8>) -> Admission {
    Admission::fresh(policy.budget).run(stream_folder(bytes).out(bytes)).settled()
}

impl Sniffed {
    /// What a stream of these bytes is measured as, however it was cut into
    /// chunks.
    pub open spec fn of_stream(self, policy: SniffPolicy, bytes: Seq<u8>) -> bool {
        &&& self.alphabet.judges(bytes, head_of(bytes))
        &&& self.profile@ == stream_builder(policy, bytes).profile()
        &&& self.bytes_profiled == self.profile@.units
        &&& self.bytes_total == bytes.len()
    }

    /// What a slice of these bytes is measured as.
    pub open spec fn of_slice(self, policy: SniffPolicy, bytes: Seq<u8>) -> bool {
        &&& self.alphabet.judges(bytes, bytes)
        &&& self.profile@ == slice_profile(policy, bytes)
        &&& self.bytes_profiled == self.profile@.units
        &&& self.bytes_total == bytes.len()
    }
}

/// The builder behind a number of ranges of the input, with a discontinuity
/// between any two of them.
pub open spec fn built_from(start: BuilderView, bytes: Seq<u8>, ranges: Seq<(int, int)>) -> BuilderView
    decreases ranges.len(),
{
    if ranges.len() == 0 {
        start
    } else {
        let before = built_from(start, bytes, ranges.drop_last());
        let (from, to) = ranges.last();
        (if ranges.len() > 1 {
            before.boundary()
        } else {
            before
        }).run(bytes.subrange(from, to))
    }
}

/// The normalized view of a whole input.
pub open spec fn slice_view(bytes: Seq<u8>) -> Seq<u8> {
    fold::normalized(alphabet::verdict(bytes, bytes).0, alphabet::bom_len(bytes), bytes)
}

pub open spec fn slice_profile(policy: SniffPolicy, bytes: Seq<u8>) -> ProfileView {
    let body = slice_view(bytes);
    built_from(policy.fresh_builder(), body, sample::sampled(body, policy.budget)).profile()
}

/// Incremental sniffer. Push chunks; ask for what was measured whenever.
#[derive(Debug)]
pub struct SniffStream {
    policy: SniffPolicy,
    stats: RawStats,
    /// Raw prefix, retained for the byte-order mark and UTF-8 sequence
    /// checks. Bounded by `HEAD_TARGET`.
    head: Vec<u8>,
    /// `Some` once the encoding has been decided.
    folder: Option<Folder>,
    builder: ProfileBuilder,
    admission: Admission,
}

impl SniffStream {
    pub closed spec fn spec_policy(self) -> SniffPolicy {
        self.policy
    }

    /// The state of the stream is the one that these bytes lead to.
    pub closed spec fn after(self, bytes: Seq<u8>) -> bool {
        &&& bytes.len() < i64::MAX / 4
        &&& self.stats.measures(bytes)
        &&& self.head@ == head_of(bytes)
        &&& self.builder.wf()
        &&& self.builder@.grams.units <= bytes.len()
        &&& self.builder@.segments <= bytes.len()
        &&& self.builder@.segments + self.admission.seams_to_go() <= self.policy.budget.windows
        &&& self.admission.wf()
        &&& self.admission.budget == self.policy.budget
        &&& if bytes.len() < HEAD_TARGET {
            &&& self.folder is None
            &&& self.builder@ == self.policy.fresh_builder()
            &&& self.admission == Admission::fresh(self.policy.budget)
        } else {
            &&& self.folder is Some
            &&& self.folder->0@ == stream_folder(bytes).next(bytes)
            &&& self.builder@ == stream_builder(self.policy, bytes)
            &&& self.admission == stream_admission(self.policy, bytes)
        }
    }

    pub closed spec fn wf(self) -> bool {
        exists|bytes: Seq<u8>| self.after(bytes)
    }

    pub closed spec fn spec_consumed(self) -> int {
        self.stats.spec_bytes() as int
    }
}

/// Folding never makes an input longer.
proof fn lemma_out_len(s: FolderView, chunk: Seq<u8>)
    requires
        s.wf(),
    ensures
        s.out(chunk).len() <= chunk.len(),
{
    match s.layout {
        None => {},
        Some((width, lo)) => {
            let p = s.pending(chunk);
            lemma_folded_len(p, width, lo);
            let n = fold::folded(p, width, lo).len() as int;
            assert(n * width <= p.len());
            assert(n * 2 <= n * width) by (nonlinear_arith)
                requires
                    n >= 0,
                    width >= 2,
            ;
            if n > chunk.len() {
                assert(n * width >= (chunk.len() + 1) * width) by (nonlinear_arith)
                    requires
                        n >= chunk.len() + 1,
                        width >= 0,
                ;
                assert((chunk.len() + 1) * width == chunk.len() * width + width)
                    by (nonlinear_arith);
                assert(chunk.len() * width >= chunk.len()) by (nonlinear_arith)
                    requires
                        width >= 1,
                        chunk.len() >= 0,
                ;
            }
        },
    }
}

proof fn lemma_folded_len(body: Seq<u8>, width: int, lo: int)
    requires
        width > 0,
    ensures
        fold::folded(body, width, lo).len() * width <= body.len(),
    decreases body.len(),
{
    if body.len() >= width {
        lemma_folded_len(body.skip(width), width, lo);
        let n = fold::folded(body.skip(width), width, lo).len() as int;
        assert((n + 1) * width == n * width + width) by (nonlinear_arith);
    } else {
        assert(0 * width == 0);
    }
}

/// More bytes behind a full head change nothing about the head.
proof fn lemma_head_stays(p: Seq<u8>, chunk: Seq<u8>)
    requires
        p.len() >= HEAD_TARGET,
    ensures
        head_of(p + chunk) == head_of(p),
        stream_folder(p + chunk) == stream_folder(p),
        stream_folder(p).wf(),
{
    assert(head_of(p + chunk) =~= head_of(p));
}

/// Normalizing and sampling one more chunk.
proof fn lemma_stream_step(policy: SniffPolicy, p: Seq<u8>, chunk: Seq<u8>)
    requires
        p.len() >= HEAD_TARGET,
    ensures
        ({
            let f = stream_folder(p).next(p);
            let out = f.out(chunk);
            &&& f.wf()
            &&& stream_folder(p + chunk).next(p + chunk) == f.next(chunk)
            &&& stream_builder(policy, p + chunk) == admission::profiled(
                stream_builder(policy, p),
                stream_admission(policy, p).admitted(out),
            )
            &&& stream_admission(policy, p + chunk) == stream_admission(policy, p).run(
                out,
            ).settled()
            &&& stream_admission(policy, p).wf()
            &&& stream_admission(policy, p).budget == policy.budget
        }),
{
    lemma_head_stays(p, chunk);
    let s = stream_folder(p);
    fold::law_fold_chunks(s, p, chunk);
    let a = s.out(p);
    let out = s.next(p).out(chunk);
    let start = Admission::fresh(policy.budget);
    admission::law_admission_chunks(start, a, out);
    admission::law_admission_keeps_the_budget(start, a);
    admission::lemma_run_settled(start.run(a), out);
    admission::lemma_settled(start.run(a));
    admission::lemma_profiled_concat(
        policy.fresh_builder(),
        start.admitted(a),
        start.run(a).admitted(out),
    );
}

impl SniffStream {
    pub fn new() -> (s: Self)
        ensures
            s.wf(),
            s.after(Seq::empty()),
            s.spec_policy() == SniffPolicy::usual(),
            s.spec_consumed() == 0,
    {
        SniffStream::with_policy(SniffPolicy::default())
    }

    pub fn with_policy(policy: SniffPolicy) -> (s: Self)
        ensures
            s.wf(),
            s.after(Seq::empty()),
            s.spec_policy() == policy,
            s.spec_consumed() == 0,
    {
        let s = SniffStream {
            policy,
            stats: RawStats::new(),
            head: Vec::new(),
            folder: None,
            builder: ProfileBuilder::new(policy.bigram_cap, policy.trigram_cap),
            admission: Admission::new(policy.budget),
        };
        assert(s.head@ =~= head_of(Seq::empty()));
        assert(s.after(Seq::empty()));
        s
    }

    /// Feeds the next chunk. Any chunking gives the same answer.
    pub fn push(&mut self, chunk: &[u8])
        requires
            old(self).wf(),
            old(self).spec_consumed() + chunk@.len() < i64::MAX / 4,
        ensures
            final(self).wf(),
            final(self).spec_policy() == old(self).spec_policy(),
            final(self).spec_consumed() == old(self).spec_consumed() + chunk@.len(),
            forall|prior: Seq<u8>| #[trigger]
                old(self).after(prior) ==> final(self).after(prior + chunk@),
    {
        if self.folder.is_some() {
            self.push_decided(chunk);
        } else {
            self.push_undecided(chunk);
        }
    }

    /// Feeds a chunk behind the head.
    fn push_decided(&mut self, chunk: &[u8])
        requires
            old(self).wf(),
            old(self).folder is Some,
            old(self).spec_consumed() + chunk@.len() < i64::MAX / 4,
        ensures
            final(self).wf(),
            final(self).spec_policy() == old(self).spec_policy(),
            final(self).spec_consumed() == old(self).spec_consumed() + chunk@.len(),
            forall|prior: Seq<u8>| #[trigger]
                old(self).after(prior) ==> final(self).after(prior + chunk@),
    {
        let ghost prior = choose|b: Seq<u8>| self.after(b);
        let ghost before = *self;
        let ghost f = self.folder->0@;
        proof {
            lemma_stream_step(before.policy, prior, chunk@);
            lemma_out_len(f, chunk@);
        }
        proof {
            alphabet::lemma_measured_len(before.stats, prior);
        }
        self.stats.push(chunk);
        self.ingest(chunk);
        proof {
            assert forall|p: Seq<u8>| #[trigger] before.after(p) implies self.after(
                p + chunk@,
            ) by {
                lemma_stream_step(before.policy, p, chunk@);
                lemma_head_stays(p, chunk@);
                alphabet::lemma_measured_len(before.stats, p);
            }
            assert(self.after(prior + chunk@));
        }
    }

    /// Feeds a chunk toward the head.
    #[verifier::rlimit(40)]
    #[verifier::spinoff_prover]
    fn push_undecided(&mut self, chunk: &[u8])
        requires
            old(self).wf(),
            old(self).folder is None,
            old(self).spec_consumed() + chunk@.len() < i64::MAX / 4,
        ensures
            final(self).wf(),
            final(self).spec_policy() == old(self).spec_policy(),
            final(self).spec_consumed() == old(self).spec_consumed() + chunk@.len(),
            forall|prior: Seq<u8>| #[trigger]
                old(self).after(prior) ==> final(self).after(prior + chunk@),
    {
        let ghost prior = choose|b: Seq<u8>| self.after(b);
        let ghost before = *self;
        let ghost whole = prior + chunk@;
        proof {
            assert forall|p: Seq<u8>| #[trigger] before.after(p) implies p == prior by {
                assert(p =~= head_of(p));
                assert(prior =~= head_of(prior));
            }
            assert(prior =~= head_of(prior));
            alphabet::lemma_measured_len(before.stats, prior);
        }
        self.stats.push(chunk);
        let room: usize = HEAD_TARGET - self.head.len();
        let take: usize = if room <= chunk.len() {
            room
        } else {
            chunk.len()
        };
        let mut part = vstd::slice::slice_to_vec(vstd::slice::slice_subrange(chunk, 0, take));
        self.head.append(&mut part);
        assert(self.head@ =~= head_of(whole));
        if self.head.len() >= HEAD_TARGET {
            let ghost h = self.head@;
            self.start();
            let rest = vstd::slice::slice_subrange(chunk, take, chunk.len());
            proof {
                assert(h + rest@ =~= whole);
                assert(head_of(h) =~= h);
                lemma_stream_step(before.policy, h, rest@);
                lemma_head_stays(h, rest@);
            }
            self.ingest(rest);
        }
        assert(self.after(whole));
    }

    /// Decides the encoding from the buffered head, then pushes the head
    /// itself through the newly built folder.
    fn start(&mut self)
        requires
            old(self).head@.len() == HEAD_TARGET,
            old(self).folder is None,
            old(self).builder.wf(),
            old(self).builder@ == old(self).policy.fresh_builder(),
            old(self).admission == Admission::fresh(old(self).policy.budget),
            old(self).admission.wf(),
        ensures
            final(self).policy == old(self).policy,
            final(self).stats == old(self).stats,
            final(self).head@ == old(self).head@,
            final(self).folder is Some,
            final(self).folder->0@ == stream_folder(old(self).head@).next(old(self).head@),
            final(self).folder->0@.wf(),
            final(self).builder.wf(),
            final(self).builder@ == stream_builder(old(self).policy, old(self).head@),
            final(self).builder@.grams.units <= HEAD_TARGET,
            final(self).builder@.segments <= HEAD_TARGET,
            final(self).builder@.segments + final(self).admission.seams_to_go() <= old(
                self,
            ).policy.budget.windows,
            final(self).admission == stream_admission(old(self).policy, old(self).head@),
            final(self).admission.wf(),
            final(self).admission.budget == old(self).policy.budget,
    {
        let ghost h = self.head@;
        let mut stats = RawStats::new();
        stats.push(self.head.as_slice());
        assert(Seq::<u8>::empty() + h =~= h);
        assert(head_of(h) =~= h);
        let a = alphabet::decide(&stats, self.head.as_slice());
        assert(stats.measures(h));
        self.folder = Some(Folder::new(a.encoding, a.bom_len));
        proof {
            lemma_out_len(stream_folder(h), h);
        }
        let head = vstd::slice::slice_to_vec(self.head.as_slice());
        self.ingest(head.as_slice());
    }

    /// Normalizes raw bytes and profiles what is admitted of them.
    fn ingest(&mut self, raw: &[u8])
        requires
            old(self).folder is Some,
            old(self).folder->0@.wf(),
            old(self).builder.wf(),
            old(self).admission.wf(),
            old(self).builder@.grams.units + old(self).builder@.segments + 2 * raw@.len()
                < i64::MAX,
        ensures
            final(self).policy == old(self).policy,
            final(self).stats == old(self).stats,
            final(self).head == old(self).head,
            final(self).folder is Some,
            final(self).folder->0@ == old(self).folder->0@.next(raw@),
            final(self).folder->0@.wf(),
            final(self).admission == old(self).admission.run(
                old(self).folder->0@.out(raw@),
            ).settled(),
            final(self).admission.wf(),
            final(self).admission.budget == old(self).admission.budget,
            final(self).builder.wf(),
            final(self).builder@ == admission::profiled(
                old(self).builder@,
                old(self).admission.admitted(old(self).folder->0@.out(raw@)),
            ),
            final(self).builder@.grams.units <= old(self).builder@.grams.units + raw@.len(),
            final(self).builder@.segments <= old(self).builder@.segments + raw@.len(),
            final(self).builder@.segments + final(self).admission.seams_to_go() <= old(
                self,
            ).builder@.segments + old(self).admission.seams_to_go(),
    {
        proof {
            lemma_out_len(self.folder->0@, raw@);
        }
        if let Some(folder) = &mut self.folder {
            let normalized = folder.push(raw);
            self.admission.feed(&normalized, &mut self.builder);
        }
    }

    /// Total raw bytes pushed.
    pub fn bytes_consumed(&self) -> (n: u64)
        ensures
            n == self.spec_consumed(),
            forall|bytes: Seq<u8>| #[trigger] self.after(bytes) ==> n == bytes.len(),
    {
        self.stats.bytes()
    }

    /// Whether the sampling budget is spent. Further pushes cost only the
    /// raw-byte statistics.
    pub fn is_satisfied(&self) -> (b: bool)
        ensures
            forall|bytes: Seq<u8>| #[trigger]
                self.after(bytes) ==> b == (bytes.len() >= HEAD_TARGET && stream_admission(
                    self.spec_policy(),
                    bytes,
                ).phase == Phase::Done),
    {
        self.admission.done()
    }

    /// What was measured so far, without ending the stream.
    pub fn report(&self) -> (r: Sniffed)
        requires
            self.wf(),
        ensures
            forall|bytes: Seq<u8>| #[trigger]
                self.after(bytes) ==> r.of_stream(self.spec_policy(), bytes),
    {
        self.snapshot()
    }

    /// Ends the stream and hands out what was measured.
    pub fn finish(self) -> (r: Sniffed)
        requires
            self.wf(),
        ensures
            forall|bytes: Seq<u8>| #[trigger]
                self.after(bytes) ==> r.of_stream(self.spec_policy(), bytes),
    {
        self.snapshot()
    }

    fn snapshot(&self) -> (r: Sniffed)
        requires
            self.wf(),
        ensures
            forall|bytes: Seq<u8>| #[trigger]
                self.after(bytes) ==> r.of_stream(self.policy, bytes),
    {
        let ghost some = choose|b: Seq<u8>| self.after(b);
        assert(self.stats.measures(some));
        let alphabet = alphabet::decide(&self.stats, self.head.as_slice());
        let profile = if self.folder.is_some() {
            self.builder.snapshot()
        } else {
            // The stream ended before the head target was reached, so the
            // encoding decision is being made now.
            let ghost h = self.head@;
            proof {
                assert forall|p: Seq<u8>| #[trigger] self.after(p) implies p == h by {
                    assert(p =~= head_of(p));
                }
                assert(h =~= head_of(h));
                lemma_out_len(stream_folder(h), h);
            }
            let mut builder = self.builder.duplicate();
            let mut sampler = self.admission;
            let mut folder = Folder::new(alphabet.encoding, alphabet.bom_len);
            let normalized = folder.push(self.head.as_slice());
            sampler.feed(&normalized, &mut builder);
            builder.finish()
        };
        let r = Sniffed {
            bytes_profiled: profile.units,
            bytes_total: self.stats.bytes(),
            alphabet,
            profile,
        };
        assert forall|bytes: Seq<u8>| #[trigger] self.after(bytes) implies r.of_stream(
            self.policy,
            bytes,
        ) by {
            assert(self.stats.measures(bytes));
        }
        r
    }
}

impl Default for SniffStream {
    fn default() -> (s: Self)
        ensures
            s.wf(),
            s.after(Seq::empty()),
            s.spec_policy() == SniffPolicy::usual(),
            s.spec_consumed() == 0,
    {
        SniffStream::new()
    }
}

// ---------------------------------------------------------------------
// Slices
// ---------------------------------------------------------------------

/// Segments that were cut out of an input are built up like its ranges.
proof fn lemma_built_from(
    start: BuilderView,
    bytes: Seq<u8>,
    ranges: Seq<(int, int)>,
    segs: Seq<&[u8]>,
)
    requires
        sample::cut_out(bytes, ranges, segs),
    ensures
        profile::built(start, segs) == built_from(start, bytes, ranges),
    decreases segs.len(),
{
    if segs.len() > 0 {
        let s = segs.drop_last();
        let r = ranges.drop_last();
        assert forall|i: int| 0 <= i < s.len() implies (#[trigger] s[i])@ == bytes.subrange(
            r[i].0,
            r[i].1,
        ) by {
            assert(s[i] == segs[i]);
            assert(r[i] == ranges[i]);
        }
        lemma_built_from(start, bytes, r, s);
        assert(segs[segs.len() - 1]@ == bytes.subrange(ranges.last().0, ranges.last().1));
    }
}

/// Segments that were cut out of an input weigh what its ranges do.
proof fn lemma_segments_len(bytes: Seq<u8>, ranges: Seq<(int, int)>, segs: Seq<&[u8]>)
    requires
        sample::cut_out(bytes, ranges, segs),
        forall|i: int|
            0 <= i < ranges.len() ==> 0 <= (#[trigger] ranges[i]).0 <= ranges[i].1 <= bytes.len(),
    ensures
        profile::total_len(segs) + segs.len() == sample::weight(ranges),
    decreases segs.len(),
{
    if segs.len() > 0 {
        let s = segs.drop_last();
        let r = ranges.drop_last();
        assert forall|i: int| 0 <= i < s.len() implies (#[trigger] s[i])@ == bytes.subrange(
            r[i].0,
            r[i].1,
        ) by {
            assert(s[i] == segs[i]);
            assert(r[i] == ranges[i]);
        }
        assert forall|i: int| 0 <= i < r.len() implies 0 <= (#[trigger] r[i]).0 <= r[i].1
            <= bytes.len() by {
            assert(r[i] == ranges[i]);
        }
        lemma_segments_len(bytes, r, s);
        let n = segs.len() as int;
        let last = ranges[n - 1];
        assert(segs[n - 1]@ == bytes.subrange(last.0, last.1));
    }
}

/// Measures a slice with the default policy.
pub fn sniff(bytes: &[u8]) -> (r: Sniffed)
    ensures
        r.of_slice(SniffPolicy::usual(), bytes@),
{
    let policy = SniffPolicy::default();
    proof {
        sample::lemma_usual_weight(slice_view(bytes@));
    }
    sniff_with(bytes, &policy)
}

/// The sampled bytes, and one for each range that they are in, can be counted.
pub open spec fn measurable(bytes: Seq<u8>, policy: SniffPolicy) -> bool {
    sample::weight(sample::sampled(slice_view(bytes), policy.budget)) < i64::MAX
}

proof fn lemma_slice(bytes: Seq<u8>, policy: SniffPolicy, segs: Seq<&[u8]>)
    requires
        sample::cut_out(slice_view(bytes), sample::sampled(slice_view(bytes), policy.budget), segs),
    ensures
        profile::total_len(segs) + segs.len() == sample::weight(
            sample::sampled(slice_view(bytes), policy.budget),
        ),
        profile::built(policy.fresh_builder(), segs).profile() == slice_profile(policy, bytes),
{
    let body = slice_view(bytes);
    let ranges = sample::sampled(body, policy.budget);
    sample::law_samples_are_within_budget(body, policy.budget);
    assert forall|i: int| 0 <= i < ranges.len() implies 0 <= (#[trigger] ranges[i]).0
        <= ranges[i].1 <= body.len() by {
        if i == 0 {
            assert(ranges[0].0 == 0);
        }
    }
    lemma_segments_len(body, ranges, segs);
    lemma_built_from(policy.fresh_builder(), body, ranges, segs);
}

/// Whether a slice can be measured with an explicit policy.
pub fn is_measurable(bytes: &[u8], policy: &SniffPolicy) -> (b: bool)
    ensures
        b == measurable(bytes@, *policy),
{
    assert(bytes.len() <= u64::MAX);
    let alphabet = alphabet::detect(bytes);
    let normalized = alphabet.normalize(bytes);
    let segs = sample::segments(normalized.as_slice(), &policy.budget);
    proof {
        lemma_slice(bytes@, *policy, segs@);
    }
    let most: u64 = i64::MAX as u64;
    let mut sum: u64 = 0;
    let mut i: usize = 0;
    assert(segs@.take(0) =~= Seq::empty());
    while i < segs.len()
        invariant
            i <= segs@.len(),
            most == i64::MAX,
            profile::total_len(segs@) + segs@.len() == sample::weight(
                sample::sampled(slice_view(bytes@), policy.budget),
            ),
            sum == profile::total_len(segs@.take(i as int)) + i,
            sum < most,
        decreases segs@.len() - i,
    {
        proof {
            let upto = segs@.take(i + 1);
            assert(upto.drop_last() =~= segs@.take(i as int));
            assert(upto.last() == segs@[i as int]);
            profile::lemma_total_len(segs@, i + 1);
        }
        let more: u64 = segs[i].len() as u64;
        if more >= most - sum - 1 {
            assert(!measurable(bytes@, *policy));
            return false;
        }
        sum = sum + more + 1;
        i += 1;
    }
    assert(segs@.take(i as int) =~= segs@);
    true
}

/// Measures a slice with an explicit policy.
pub fn sniff_with(bytes: &[u8], policy: &SniffPolicy) -> (r: Sniffed)
    requires
        measurable(bytes@, *policy),
    ensures
        r.of_slice(*policy, bytes@),
{
    assert(bytes.len() <= u64::MAX);
    let alphabet = alphabet::detect(bytes);
    let normalized = alphabet.normalize(bytes);
    let segs = sample::segments(normalized.as_slice(), &policy.budget);
    proof {
        lemma_slice(bytes@, *policy, segs@);
    }
    let profile = NgramProfile::build(segs.as_slice(), policy.bigram_cap, policy.trigram_cap);
    Sniffed {
        bytes_profiled: profile.units,
        bytes_total: bytes.len() as u64,
        alphabet,
        profile,
    }
}

// ---------------------------------------------------------------------
// Laws
// ---------------------------------------------------------------------

/// Chunk boundaries are invisible to the answer: whatever is measured of two
/// streams of the same bytes is the same.
pub proof fn law_chunking_does_not_change_the_answer(
    a: Sniffed,
    b: Sniffed,
    policy: SniffPolicy,
    bytes: Seq<u8>,
)
    requires
        a.of_stream(policy, bytes),
        b.of_stream(policy, bytes),
    ensures
        a.profile@ == b.profile@,
        a.bytes_profiled == b.bytes_profiled,
        a.bytes_total == b.bytes_total,
        a.alphabet.encoding == b.alphabet.encoding,
        a.alphabet.bom_len == b.alphabet.bom_len,
        a.alphabet.basis == b.alphabet.basis,
        a.alphabet.hist@ == b.alphabet.hist@,
        a.alphabet.printable == b.alphabet.printable,
        a.alphabet.nulls == b.alphabet.nulls,
        a.alphabet.odd_nulls == b.alphabet.odd_nulls,
        a.alphabet.high_bits == b.alphabet.high_bits,
        a.alphabet.head_high == b.alphabet.head_high,
        a.alphabet.utf8_valid == b.alphabet.utf8_valid,
{
}

/// Everything that is met in the prefix is admitted, in one piece.
proof fn lemma_prefix_is_admitted(budget: Budget, bytes: Seq<u8>)
    requires
        bytes.len() <= budget.prefix,
        bytes.len() <= budget.max_bytes,
    ensures
        ({
            let s = Admission::fresh(budget);
            &&& s.admitted(bytes) == bytes.map_values(|b: u8| (b, false))
            &&& bytes.len() > 0 ==> s.run(bytes) == (Admission {
                left: (budget.prefix - bytes.len()) as u64,
                profiled: bytes.len() as u64,
                ..s
            })
        }),
    decreases bytes.len(),
{
    let s = Admission::fresh(budget);
    if bytes.len() > 0 {
        let front = bytes.drop_last();
        lemma_prefix_is_admitted(budget, front);
        assert(s.run(front).settled() == s.run(front));
        assert(s.admitted(bytes) =~= bytes.map_values(|b: u8| (b, false)));
    } else {
        assert(s.admitted(bytes) =~= bytes.map_values(|b: u8| (b, false)));
    }
}

/// Bytes that are admitted without a seam are profiled as one run.
proof fn lemma_seamless(s: BuilderView, bytes: Seq<u8>)
    ensures
        admission::profiled(s, bytes.map_values(|b: u8| (b, false))) == s.run(bytes),
    decreases bytes.len(),
{
    let events = bytes.map_values(|b: u8| (b, false));
    if bytes.len() > 0 {
        assert(events.drop_last() =~= bytes.drop_last().map_values(|b: u8| (b, false)));
        lemma_seamless(s, bytes.drop_last());
    }
}

/// Up to the prefix of the budget, the slice and the stream profile the same
/// bytes, and so agree, where the head decides on the same normalization as
/// the whole input. An input that fits into the head always does.
#[verifier::spinoff_prover]
pub proof fn law_slice_and_stream_agree(policy: SniffPolicy, bytes: Seq<u8>)
    requires
        slice_view(bytes).len() <= policy.budget.prefix,
        slice_view(bytes).len() <= policy.budget.max_bytes,
        bytes.len() <= HEAD_TARGET || (alphabet::bom_len(head_of(bytes)) == alphabet::bom_len(
            bytes,
        ) && fold::layout_of(alphabet::verdict(head_of(bytes), head_of(bytes)).0)
            == fold::layout_of(alphabet::verdict(bytes, bytes).0)),
    ensures
        slice_profile(policy, bytes) == stream_builder(policy, bytes).profile(),
        bytes.len() <= HEAD_TARGET ==> head_of(bytes) == bytes,
{
    let body = slice_view(bytes);
    if bytes.len() <= HEAD_TARGET {
        assert(head_of(bytes) =~= bytes);
    }
    let head = head_of(bytes);
    let e = alphabet::verdict(head, head).0;
    fold::law_fold_whole(e, alphabet::bom_len(head), bytes);
    assert(stream_folder(bytes).out(bytes) == body);
    lemma_prefix_is_admitted(policy.budget, body);
    lemma_seamless(policy.fresh_builder(), body);
    let ranges = sample::sampled(body, policy.budget);
    assert(ranges.drop_last() =~= Seq::<(int, int)>::empty());
    assert(body.subrange(0, body.len() as int) =~= body);
    assert(built_from(policy.fresh_builder(), body, ranges.drop_last())
        == policy.fresh_builder());
}

/// A stream never profiles more than its budget allows, nor holds more of
/// its head than the head target.
pub proof fn law_stream_is_bounded(policy: SniffPolicy, bytes: Seq<u8>)
    ensures
        Admission::fresh(policy.budget).admitted(stream_folder(bytes).out(bytes)).len()
            <= policy.budget.max_bytes,
        Admission::fresh(policy.budget).admitted(stream_folder(bytes).out(bytes)).len()
            <= policy.budget.prefix + policy.budget.windows * policy.budget.window,
        head_of(bytes).len() <= HEAD_TARGET,
{
    admission::law_admission_fits_prefix_and_windows(
        policy.budget,
        stream_folder(bytes).out(bytes),
    );
    admission::law_admission_keeps_the_budget(
        Admission::fresh(policy.budget),
        stream_folder(bytes).out(bytes),
    );
}

} // verus!
