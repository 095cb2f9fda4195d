//! Batch / offline driver for the analyzer.
//!
//! Streaming is the default mode: a long-lived analyzer takes events one at a
//! time and never reaches the end. This module is for the other mode: a
//! bounded source drives documents into a fresh analyzer that runs to
//! completion.
use crate::analyze::dist::Buckets;
use crate::analyze::engine;
use crate::analyze::engine::StreamingAnalyzer;
use crate::analyze::machine::{AnalyzerPolicy, PolicyView, State};
use crate::analyze::noted;
use crate::analyze::noted::Noted;
use crate::analyze::summary;
use crate::analyze::tokens;
use crate::analyze::tokens::Token;
use crate::ingest;
use crate::ingest::{Analyzer, JsonEventSink};
use crate::json::events;
use crate::json::laws;
use crate::json::select;
use crate::json::{Json, JsonView};
use crate::node::ShapeNode;
use crate::batch::time::TimePredicate;
use crate::path::syntax;
use crate::path::syntax::StepView;
use crate::path::Path;
use crate::json::text as documents;
use crate::text;
use vstd::prelude::*;

pub mod ids;
pub mod lines;
pub mod time;
pub mod moments;
pub mod zone;

verus! {

/// Why a batch run failed.
#[derive(Debug, PartialEq, Eq)]
pub enum BatchError {
    Io(String),
    /// Any source-specific error (parse failure, network, decode, schema
    /// mismatch), as its message.
    Source(String),
    Other(String),
}

impl BatchError {
    pub open spec fn message(self) -> Seq<char> {
        match self {
            BatchError::Io(e) => "io: "@ + e@,
            BatchError::Source(e) => "source: "@ + e@,
            BatchError::Other(s) => s@,
        }
    }

    pub fn to_string(&self) -> (r: String)
        ensures
            r@ == self.message(),
    {
        match self {
            BatchError::Io(e) => {
                let mut r: String = "io: ".to_string();
                r.append(e.as_str());
                r
            },
            BatchError::Source(e) => {
                let mut r: String = "source: ".to_string();
                r.append(e.as_str());
                r
            },
            BatchError::Other(s) => s.clone(),
        }
    }
}

/// How far a source was driven.
#[derive(Clone, Copy, Debug, PartialEq, Eq, Structural)]
pub struct Driven {
    /// The number of documents driven into the sink.
    pub doc_count: u64,
    /// Whether nothing was left of the source in the end.
    pub exhausted: bool,
}

/// Pluggable source of documents for an analyzer run. Each call to `drive`
/// walks the source's documents in order, feeding each one (with a
/// monotonically increasing ordinal) into the supplied analyzer. Returns the
/// number of documents driven into the sink, and whether they were all.
///
/// Implementations are expected to poll `sink.should_bail()` after every
/// document, and to drive no further one when it returns `Some`. `Feed` does
/// both.
pub trait DocumentSource: Sized {
    fn drive(self, sink: &mut StreamingAnalyzer) -> (r: Result<Driven, BatchError>)
        requires
            old(sink).inv(),
            old(sink)@.idle(),
        ensures
            final(sink).inv(),
    ;

    /// Human-readable description carried into the audit trail.
    fn describe(&self) -> (r: String);
}


/// Outcome of a batch analyzer run. Carries enough provenance that an audit
/// trail can reproduce the run: which source, which policy, why we were doing
/// this.
#[derive(Debug)]
pub struct AnalysisOutcome {
    pub doc_count: u64,
    pub shape: ShapeNode,
    pub summary: Vec<Token>,
    pub report: Vec<Token>,
    pub source: String,
    pub policy: AnalyzerPolicy,
    /// `Some(reason)` if the analyzer bailed out before the source was
    /// exhausted. `None` for a normal completion.
    pub bailed: Option<String>,
}

impl AnalysisOutcome {
    /// What is told of a run that left the analyzer in state `s`.
    pub open spec fn tells(
        self,
        s: State,
        driven: Driven,
        source: Seq<char>,
        policy: PolicyView,
    ) -> bool {
        &&& self.doc_count == driven.doc_count
        &&& self.shape@ == engine::root_shape(s)
        &&& tokens::tokens(self.summary@) == summary::summary_tokens(s.arena, s.doc_count)
        &&& tokens::tokens(self.report@) == engine::report_tokens(s)
        &&& self.source@ == source
        &&& self.policy@ == policy
        &&& match self.bailed {
            Some(reason) => !driven.exhausted && s.bail_reason() == Some(reason@),
            None => driven.exhausted || s.bail_reason() is None,
        }
    }
}

/// The outcome of a run, from the analyzer that it left and how far the source
/// was driven.
pub fn outcome_of(
    analyzer: StreamingAnalyzer,
    driven: Driven,
    source: String,
    policy: AnalyzerPolicy,
) -> (r: AnalysisOutcome)
    requires
        analyzer.inv(),
    ensures
        r.tells(analyzer@, driven, source@, policy@),
        r.source == source,
{
    let bailed: Option<String> = if driven.exhausted {
        None
    } else {
        match analyzer.should_bail() {
            Some(reason) => Some(reason.to_string()),
            None => None,
        }
    };
    let summary = analyzer.summary();
    let report = analyzer.report();
    let shape = analyzer.finish();
    AnalysisOutcome {
        doc_count: driven.doc_count,
        shape,
        summary,
        report,
        source,
        policy,
        bailed,
    }
}

/// Drives a source through a fresh analyzer configured with the given policy.
/// Returns the inferred shape, the summary, the full report, and provenance
/// enough to reproduce the call. What is told is of the analyzer that the
/// source's own `drive` left.
pub fn analyze<S: DocumentSource>(source: S, policy: AnalyzerPolicy, buckets: Buckets) -> (r: Result<
    AnalysisOutcome,
    BatchError,
>)
    requires
        buckets.wf(),
    ensures
        match r {
            Ok(out) => call_ensures(S::describe, (&source,), out.source) && exists|
                sink: &mut StreamingAnalyzer,
                driven: Driven,
            |
                {
                    &&& #[trigger] call_ensures(S::drive, (source, sink), Ok(driven))
                    &&& (*sink)@ == State::initial(policy@, buckets@)
                    &&& out.tells((*final(sink))@, driven, out.source@, policy@)
                },
            Err(e) => exists|sink: &mut StreamingAnalyzer| #[trigger]
                call_ensures(S::drive, (source, sink), Err(e)) && (*sink)@ == State::initial(
                    policy@,
                    buckets@,
                ),
        },
{
    let description = source.describe();
    let kept = policy.copied();
    let mut analyzer = StreamingAnalyzer::with_policy(policy, buckets);
    match source.drive(&mut analyzer) {
        Err(e) => Err(e),
        Ok(driven) => {
            let ghost s = analyzer@;
            let out = outcome_of(analyzer, driven, description, kept);
            assert(out.tells(s, driven, out.source@, policy@));
            Ok(out)
        },
    }
}

// ---------------------------------------------------------------------
// Feeding documents
// ---------------------------------------------------------------------

/// What of each document is fed: all of it, or the part that a path leads to.
pub open spec fn target_of(v: JsonView, at: Option<Seq<StepView>>) -> Option<JsonView> {
    match at {
        Some(steps) => select::resolved(v, steps),
        None => Some(v),
    }
}

pub open spec fn path_view(at: Option<Path>) -> Option<Seq<StepView>> {
    match at {
        Some(p) => Some(p@),
        None => None,
    }
}

/// The documents of a source, one at a time: each one is projected to a
/// subtree, if that is wanted, and driven into the analyzer. Documents whose
/// path doesn't resolve are skipped. Once the policy of the analyzer says to
/// stop, the next document is refused: the source is cut short.
#[derive(Debug)]
pub struct Feed {
    at: Option<Path>,
    ordinal: u64,
    satisfied: bool,
    cut: bool,
}

impl Feed {
    pub closed spec fn path(&self) -> Option<Seq<StepView>> {
        path_view(self.at)
    }

    pub closed spec fn fed(&self) -> u64 {
        self.ordinal
    }

    /// Whether the analyzer wants no further document.
    pub closed spec fn sated(&self) -> bool {
        self.satisfied
    }

    /// Whether something was left of the source.
    pub closed spec fn cut(&self) -> bool {
        self.cut
    }

    pub fn new(at: Option<Path>) -> (f: Feed)
        ensures
            f.path() == path_view(at),
            f.fed() == 0,
            !f.sated(),
            !f.cut(),
    {
        Feed { at, ordinal: 0, satisfied: false, cut: false }
    }

    /// Whether the analyzer wants no further document.
    pub fn is_satisfied(&self) -> (b: bool)
        ensures
            b == self.sated(),
    {
        self.satisfied
    }

    /// Asks the analyzer whether it wants a further document, as is done
    /// between two files.
    pub fn ask(&mut self, sink: &StreamingAnalyzer)
        ensures
            final(self).sated() == (old(self).sated() || sink@.bail_reason() is Some),
            final(self).path() == old(self).path(),
            final(self).fed() == old(self).fed(),
            final(self).cut() == old(self).cut(),
    {
        if sink.should_bail().is_some() {
            self.satisfied = true;
        }
    }

    /// Notes that something is left of the source which is not a document that
    /// can be offered.
    pub fn cut_short(&mut self)
        ensures
            final(self).cut(),
            final(self).path() == old(self).path(),
            final(self).fed() == old(self).fed(),
            final(self).sated() == old(self).sated(),
    {
        self.cut = true;
    }

    /// How far the source was driven.
    pub fn driven(&self) -> (r: Driven)
        ensures
            r == (Driven { doc_count: self.fed(), exhausted: !self.cut() }),
    {
        Driven { doc_count: self.ordinal, exhausted: !self.cut }
    }

    /// How many documents were driven.
    pub fn count(&self) -> (n: u64)
        ensures
            n == self.fed(),
    {
        self.ordinal
    }

    fn target<'a>(&self, doc: &'a Json) -> (r: Option<&'a Json>)
        ensures
            match r {
                Some(v) => target_of(doc@, self.path()) == Some(v@),
                None => target_of(doc@, self.path()) is None,
            },
    {
        match &self.at {
            Some(p) => select::navigate(doc, p),
            None => Some(doc),
        }
    }

    /// A document that can still be counted.
    pub open spec fn takes(&self, s: State, doc: JsonView) -> bool {
        &&& s.idle()
        &&& !self.sated() ==> {
            &&& self.fed() < u64::MAX
            &&& target_of(doc, self.path()) matches Some(v) ==> laws::countable(v, s.policy.cluster_cap) && s.events
                + events::document_events(self.fed(), v).len() <= u64::MAX
        }
    }

    /// What a document makes of the analyzer, and whether to go on. The run
    /// ends with the first document after the policy said so, which is not
    /// driven.
    pub open spec fn leads(
        before: Feed,
        after: Feed,
        from: State,
        to: State,
        doc: JsonView,
        go_on: bool,
    ) -> bool {
        &&& to.idle()
        &&& after.path() == before.path()
        &&& after.cut() == (before.cut() || before.sated())
        &&& go_on == !before.sated()
        &&& if before.sated() {
            to == from && after.fed() == before.fed() && after.sated()
        } else {
            match target_of(doc, before.path()) {
                None => to == from && after.fed() == before.fed() && !after.sated(),
                Some(v) => {
                    &&& to == ingest::after_all::<StreamingAnalyzer>(
                        from,
                        events::document_events(before.fed(), v),
                    )
                    &&& after.fed() == before.fed() + 1
                    &&& after.sated() == (to.bail_reason() is Some)
                },
            }
        }
    }

    /// Offers a document; says whether to go on.
    pub fn offer(&mut self, sink: &mut StreamingAnalyzer, doc: &Json) -> (go_on: bool)
        requires
            old(sink).inv(),
            old(self).takes(old(sink)@, doc@),
        ensures
            final(sink).inv(),
            Feed::leads(*old(self), *final(self), old(sink)@, final(sink)@, doc@, go_on),
    {
        if self.satisfied {
            self.cut = true;
            return false;
        }
        match self.target(doc) {
            None => true,
            Some(v) => {
                proof {
                    sink.lemma_inv();
                    laws::law_documents_are_taken(sink@, self.ordinal, v@);
                }
                events::drive_document(sink, self.ordinal, v);
                self.ordinal += 1;
                self.satisfied = sink.should_bail().is_some();
                true
            },
        }
    }

    /// Offers a document to an analyzer whose numbers are noted.
    pub fn offer_noted(&mut self, sink: &mut Noted, doc: &Json) -> (go_on: bool)
        requires
            old(sink).inv(),
            old(self).takes(old(sink)@.state, doc@),
        ensures
            final(sink).inv(),
            Feed::leads(
                *old(self),
                *final(self),
                old(sink)@.state,
                final(sink)@.state,
                doc@,
                go_on,
            ),
            match target_of(doc@, old(self).path()) {
                Some(v) if !old(self).sated() => final(sink)@ == ingest::after_all::<Noted>(
                    old(sink)@,
                    events::document_events(old(self).fed(), v),
                ),
                _ => final(sink)@ == old(sink)@,
            },
    {
        if self.satisfied {
            self.cut = true;
            return false;
        }
        match self.target(doc) {
            None => true,
            Some(v) => {
                proof {
                    sink.analyzer.lemma_inv();
                    laws::law_documents_are_taken(sink@.state, self.ordinal, v@);
                    noted::law_noting_changes_nothing(
                        sink@,
                        events::document_events(self.ordinal, v@),
                    );
                }
                events::drive_document(sink, self.ordinal, v);
                self.ordinal += 1;
                self.satisfied = sink.analyzer.should_bail().is_some();
                true
            },
        }
    }
}

/// Line-delimited JSON: one document per line that is more than white space.
#[derive(Clone, Copy, Debug)]
pub struct JsonlDecoder;

impl JsonlDecoder {
    /// The name of the format, for the audit trail.
    pub fn label(&self) -> (r: &'static str)
        ensures
            r@ == "jsonl"@,
    {
        "jsonl"
    }

    /// Whether a line holds a record.
    pub fn is_record(&self, line: &str) -> (b: bool)
        ensures
            b == (text::trimmed(line@).len() > 0),
    {
        let t = text::trim(line);
        t.as_str().unicode_len() > 0
    }

    /// The record of a line: nothing where the line is white space, and else
    /// the document that it starts with, or the error of the parser. The
    /// nesting is not limited by the parser, so a line that is nested too deep
    /// for the stack is to be told apart before, with `json::text::is_shallow`.
    pub fn record(&self, line: &str) -> (r: Result<Option<Json>, BatchError>)
        requires
            documents::nesting(line@) <= documents::DEEPEST_LINE,
        ensures
            if text::trimmed(line@).len() == 0 {
                r == Ok::<Option<Json>, BatchError>(None)
            } else {
                match documents::decoded(line@) {
                    Ok(v) => r matches Ok(Some(j)) && j@ == v,
                    Err(e) => r matches Err(BatchError::Source(m)) && m@ == e,
                }
            },
    {
        if !self.is_record(line) {
            return Ok(None);
        }
        match documents::decode_json(line) {
            Ok(j) => Ok(Some(j)),
            Err(e) => Err(BatchError::Source(e)),
        }
    }
}

/// How a directory of files is told of in the audit trail.
pub open spec fn directory_label(
    format: Seq<char>,
    root: Seq<char>,
    filtered: bool,
    window: TimePredicate,
    at: Option<Seq<StepView>>,
) -> Seq<char> {
    let named = format + ":"@ + root;
    let narrowed = if filtered {
        named + " (filtered)"@
    } else {
        named
    };
    let timed = if window.start is None && window.end is None {
        narrowed
    } else {
        narrowed + " ["@ + window.description() + "]"@
    };
    match at {
        Some(steps) => timed + " at="@ + syntax::show(steps),
        None => timed,
    }
}

/// Describes a directory of files: the format, the root, and whether the files
/// are filtered by path, by time or projected.
pub fn describe_directory(
    format: &str,
    root: &str,
    filtered: bool,
    window: &TimePredicate,
    at: &Option<Path>,
) -> (r: String)
    requires
        window.start matches Some(s) ==> s.representable(),
        window.end matches Some(e) ==> e.representable(),
    ensures
        r@ == directory_label(format@, root@, filtered, *window, path_view(*at)),
{
    let mut out: String = format.to_string();
    out.append(":");
    out.append(root);
    if filtered {
        out.append(" (filtered)");
    }
    if window.start.is_some() || window.end.is_some() {
        out.append(" [");
        let told = window.describe();
        out.append(told.as_str());
        out.append("]");
    }
    if let Some(p) = at {
        out.append(" at=");
        let told = p.to_string();
        out.append(told.as_str());
    }
    out
}

/// A run takes no document once it has taken as many as the policy allows: the
/// document with which it reaches that number is the last, and what is offered
/// after it changes nothing. Every document that is taken is counted once.
pub proof fn law_runs_are_cut_at_the_cap(
    before: Feed,
    after: Feed,
    from: State,
    to: State,
    doc: JsonView,
    go_on: bool,
    most: u64,
)
    requires
        from.wf(),
        before.takes(from, doc),
        Feed::leads(before, after, from, to, doc, go_on),
        from.policy.max_docs == Some(most),
        from.doc_count == before.fed(),
    ensures
        to.doc_count == after.fed(),
        before.sated() ==> to == from && !go_on && after.sated(),
        before.fed() < after.fed() && after.fed() >= most ==> after.sated(),
        !before.sated() && target_of(doc, before.path()) is Some ==> after.fed() == before.fed() + 1,
        target_of(doc, before.path()) is None ==> to == from,
{
    if !before.sated() {
        if let Some(v) = target_of(doc, before.path()) {
            laws::law_documents_are_taken(from, before.fed(), v);
        }
    }
}

} // verus!
