//! An analyzer whose numbers are noted, so that they can be summed.
use crate::analyze::arena::NodeId;
use crate::analyze::engine::StreamingAnalyzer;
use crate::analyze::machine::State;
use crate::analyze::stats;
use crate::double::Double;
use crate::ingest;
use crate::ingest::{EventView, JsonEventSink};
use vstd::prelude::*;

verus! {

/// An analyzer, and the numbers that it has seen since they were last taken,
/// each with its node.
#[derive(Debug)]
pub struct Noted {
    pub analyzer: StreamingAnalyzer,
    pub numbers: Vec<(NodeId, Double)>,
}

#[verifier::ext_equal]
pub struct NotedView {
    pub state: State,
    pub numbers: Seq<(int, Double)>,
}

pub open spec fn numbers_view(v: Seq<(NodeId, Double)>) -> Seq<(int, Double)> {
    v.map_values(|n: (NodeId, Double)| (n.0 as int, n.1))
}

impl View for Noted {
    type V = NotedView;

    open spec fn view(&self) -> NotedView {
        NotedView { state: self.analyzer@, numbers: numbers_view(self.numbers@) }
    }
}

/// The number that an event tells of.
pub open spec fn number_of(e: EventView) -> Option<Double> {
    match e {
        EventView::I64(v) => Some(stats::whole(v as int)),
        EventView::U64(v) => Some(stats::whole(v as int)),
        EventView::F64(v) => Some(v),
        _ => None,
    }
}

impl NotedView {
    pub open spec fn step(self, e: EventView) -> NotedView {
        NotedView {
            state: self.state.step(e),
            numbers: match number_of(e) {
                Some(v) => self.numbers.push((self.state.target().1, v)),
                None => self.numbers,
            },
        }
    }
}

impl Noted {
    pub fn new(analyzer: StreamingAnalyzer) -> (n: Noted)
        requires
            analyzer.inv(),
        ensures
            n.inv(),
            n@ == (NotedView { state: analyzer@, numbers: Seq::empty() }),
    {
        let n = Noted { analyzer, numbers: Vec::new() };
        assert(n@ =~= (NotedView { state: analyzer@, numbers: Seq::empty() }));
        n
    }

    /// Takes the numbers that were noted.
    pub fn take_numbers(&mut self) -> (r: Vec<(NodeId, Double)>)
        ensures
            numbers_view(r@) == old(self)@.numbers,
            final(self)@ == (NotedView { state: old(self)@.state, numbers: Seq::empty() }),
            final(self).analyzer == old(self).analyzer,
    {
        let mut taken: Vec<(NodeId, Double)> = Vec::new();
        std::mem::swap(&mut self.numbers, &mut taken);
        assert(self@ =~= (NotedView { state: old(self)@.state, numbers: Seq::empty() }));
        taken
    }

    fn note(&mut self, v: Double)
        ensures
            final(self).analyzer == old(self).analyzer,
            final(self)@.numbers == old(self)@.numbers.push((old(self)@.state.latest, v)),
    {
        let id: NodeId = self.analyzer.latest_number();
        self.numbers.push((id, v));
        assert(self@.numbers =~= old(self)@.numbers.push((old(self)@.state.latest, v)));
    }
}

impl JsonEventSink for Noted {
    open spec fn inv(&self) -> bool {
        self.analyzer.inv()
    }

    open spec fn accepts(s: NotedView, e: EventView) -> bool {
        s.state.accepts(e)
    }

    open spec fn step(s: NotedView, e: EventView) -> NotedView {
        s.step(e)
    }

    fn document_begin(&mut self, doc_ordinal: u64) {
        self.analyzer.document_begin(doc_ordinal);
    }

    fn document_end(&mut self) {
        self.analyzer.document_end();
    }

    fn null(&mut self) {
        self.analyzer.null();
    }

    fn bool(&mut self, v: bool) {
        self.analyzer.bool(v);
    }

    fn i64(&mut self, v: i64) {
        self.analyzer.i64(v);
        self.note(Double::from_i64(v));
    }

    fn u64(&mut self, v: u64) {
        self.analyzer.u64(v);
        self.note(Double::from_u64(v));
    }

    fn double(&mut self, v: Double) {
        self.analyzer.double(v);
        self.note(v);
    }

    fn string(&mut self, s: &str) {
        self.analyzer.string(s);
    }

    fn array_begin(&mut self) {
        self.analyzer.array_begin();
    }

    fn array_end(&mut self) {
        self.analyzer.array_end();
    }

    fn object_begin(&mut self) {
        self.analyzer.object_begin();
    }

    fn object_key(&mut self, key: &str) {
        self.analyzer.object_key(key);
    }

    fn object_end(&mut self) {
        self.analyzer.object_end();
    }
}

/// Noting changes nothing: the events make of the analyzer what they make of
/// one whose numbers are not noted.
pub proof fn law_noting_changes_nothing(s: NotedView, events: Seq<EventView>)
    ensures
        ingest::after_all::<Noted>(s, events).state == ingest::after_all::<StreamingAnalyzer>(
            s.state,
            events,
        ),
        ingest::accepts_all::<Noted>(s, events) == ingest::accepts_all::<StreamingAnalyzer>(
            s.state,
            events,
        ),
    decreases events.len(),
{
    if events.len() > 0 {
        law_noting_changes_nothing(s, events.drop_last());
    }
}

/// The numbers that events tell of, in their order: whole ones as the doubles
/// nearest to them.
pub open spec fn told(events: Seq<EventView>) -> Seq<Double>
    decreases events.len(),
{
    if events.len() == 0 {
        Seq::empty()
    } else {
        let front = told(events.drop_last());
        match events.last() {
            EventView::I64(v) => front.push(stats::whole(v as int)),
            EventView::U64(v) => front.push(stats::whole(v as int)),
            EventView::F64(v) => front.push(v),
            _ => front,
        }
    }
}

/// Every number is noted, in the order of the events, and nothing else is.
pub proof fn law_every_number_is_noted(s: NotedView, events: Seq<EventView>)
    ensures
        ingest::after_all::<Noted>(s, events).numbers.map_values(|n: (int, Double)| n.1)
            == s.numbers.map_values(|n: (int, Double)| n.1) + told(events),
    decreases events.len(),
{
    let value = |n: (int, Double)| n.1;
    let after = ingest::after_all::<Noted>(s, events).numbers;
    if events.len() == 0 {
        assert(after.map_values(value) =~= s.numbers.map_values(value) + told(events));
    } else {
        let front = events.drop_last();
        law_every_number_is_noted(s, front);
        let before = ingest::after_all::<Noted>(s, front).numbers;
        match events.last() {
            EventView::I64(_) | EventView::U64(_) | EventView::F64(_) => {
                assert(after.drop_last() =~= before);
                assert(after.map_values(value) =~= before.map_values(value).push(after.last().1));
            },
            _ => {
                assert(after == before);
            },
        }
        assert(after.map_values(value) =~= s.numbers.map_values(value) + told(events));
    }
}

} // verus!
