//! Ingest-side input contract for the analyzer.
//!
//! `JsonEventSink` is a SAX-style trait: adapters drive events, the analyzer
//! accumulates state. Document boundaries are explicit so that the analyzer
//! can finalize per-document accumulators. Scalars are reported with their
//! concrete type.
use crate::double::Double;
use crate::node::{ShapeNode, ShapeView};
use vstd::prelude::*;

pub mod record;

verus! {

/// One event of a document.
pub enum EventView {
    DocumentBegin(u64),
    DocumentEnd,
    Null,
    Bool(bool),
    I64(i64),
    U64(u64),
    F64(Double),
    Text(Seq<char>),
    ArrayBegin,
    ArrayEnd,
    ObjectBegin,
    ObjectKey(Seq<char>),
    ObjectEnd,
}

/// What a sink is told. `step` says what an event makes of a sink, `accepts`
/// which events a sink in a given state can take.
pub trait JsonEventSink: View + Sized {
    spec fn inv(&self) -> bool;

    spec fn accepts(s: Self::V, e: EventView) -> bool;

    spec fn step(s: Self::V, e: EventView) -> Self::V;

    fn document_begin(&mut self, doc_ordinal: u64)
        requires
            old(self).inv(),
            Self::accepts(old(self)@, EventView::DocumentBegin(doc_ordinal)),
        ensures
            final(self).inv(),
            final(self)@ == Self::step(old(self)@, EventView::DocumentBegin(doc_ordinal)),
    ;

    fn document_end(&mut self)
        requires
            old(self).inv(),
            Self::accepts(old(self)@, EventView::DocumentEnd),
        ensures
            final(self).inv(),
            final(self)@ == Self::step(old(self)@, EventView::DocumentEnd),
    ;

    fn null(&mut self)
        requires
            old(self).inv(),
            Self::accepts(old(self)@, EventView::Null),
        ensures
            final(self).inv(),
            final(self)@ == Self::step(old(self)@, EventView::Null),
    ;

    fn bool(&mut self, v: bool)
        requires
            old(self).inv(),
            Self::accepts(old(self)@, EventView::Bool(v)),
        ensures
            final(self).inv(),
            final(self)@ == Self::step(old(self)@, EventView::Bool(v)),
    ;

    fn i64(&mut self, v: i64)
        requires
            old(self).inv(),
            Self::accepts(old(self)@, EventView::I64(v)),
        ensures
            final(self).inv(),
            final(self)@ == Self::step(old(self)@, EventView::I64(v)),
    ;

    fn u64(&mut self, v: u64)
        requires
            old(self).inv(),
            Self::accepts(old(self)@, EventView::U64(v)),
        ensures
            final(self).inv(),
            final(self)@ == Self::step(old(self)@, EventView::U64(v)),
    ;

    fn double(&mut self, v: Double)
        requires
            old(self).inv(),
            Self::accepts(old(self)@, EventView::F64(v)),
        ensures
            final(self).inv(),
            final(self)@ == Self::step(old(self)@, EventView::F64(v)),
    ;

    fn string(&mut self, s: &str)
        requires
            old(self).inv(),
            Self::accepts(old(self)@, EventView::Text(s@)),
        ensures
            final(self).inv(),
            final(self)@ == Self::step(old(self)@, EventView::Text(s@)),
    ;

    fn array_begin(&mut self)
        requires
            old(self).inv(),
            Self::accepts(old(self)@, EventView::ArrayBegin),
        ensures
            final(self).inv(),
            final(self)@ == Self::step(old(self)@, EventView::ArrayBegin),
    ;

    fn array_end(&mut self)
        requires
            old(self).inv(),
            Self::accepts(old(self)@, EventView::ArrayEnd),
        ensures
            final(self).inv(),
            final(self)@ == Self::step(old(self)@, EventView::ArrayEnd),
    ;

    fn object_begin(&mut self)
        requires
            old(self).inv(),
            Self::accepts(old(self)@, EventView::ObjectBegin),
        ensures
            final(self).inv(),
            final(self)@ == Self::step(old(self)@, EventView::ObjectBegin),
    ;

    /// Reported between `object_begin` and `object_end`, once per key,
    /// immediately before the value events for that key.
    fn object_key(&mut self, key: &str)
        requires
            old(self).inv(),
            Self::accepts(old(self)@, EventView::ObjectKey(key@)),
        ensures
            final(self).inv(),
            final(self)@ == Self::step(old(self)@, EventView::ObjectKey(key@)),
    ;

    fn object_end(&mut self)
        requires
            old(self).inv(),
            Self::accepts(old(self)@, EventView::ObjectEnd),
        ensures
            final(self).inv(),
            final(self)@ == Self::step(old(self)@, EventView::ObjectEnd),
    ;
}

/// An analyzer is a `JsonEventSink` that can be consumed to produce a
/// `ShapeNode` tree. Consumers drive events via the sink, and `finish` to read
/// the final shape.
pub trait Analyzer: JsonEventSink {
    spec fn shape(s: Self::V) -> ShapeView;

    fn finish(self) -> (r: ShapeNode)
        requires
            self.inv(),
        ensures
            r@ == Self::shape(self@),
    ;
}

/// A sink in state `s` takes all the events in turn.
pub open spec fn accepts_all<S: JsonEventSink>(s: S::V, events: Seq<EventView>) -> bool
    decreases events.len(),
{
    if events.len() == 0 {
        true
    } else {
        accepts_all::<S>(s, events.drop_last()) && S::accepts(
            after_all::<S>(s, events.drop_last()),
            events.last(),
        )
    }
}

/// What the events make of a sink in state `s`.
pub open spec fn after_all<S: JsonEventSink>(s: S::V, events: Seq<EventView>) -> S::V
    decreases events.len(),
{
    if events.len() == 0 {
        s
    } else {
        S::step(after_all::<S>(s, events.drop_last()), events.last())
    }
}

} // verus!
