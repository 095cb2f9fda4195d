//! A sink that keeps what it is told.
use crate::double::Double;
use crate::ingest;
use crate::ingest::{EventView, JsonEventSink};
use vstd::prelude::*;

verus! {

#[derive(Clone, Debug, PartialEq, Eq)]
pub enum Event {
    DocumentBegin(u64),
    DocumentEnd,
    Null,
    Bool(bool),
    I64(i64),
    U64(u64),
    F64(Double),
    Text(String),
    ArrayBegin,
    ArrayEnd,
    ObjectBegin,
    ObjectKey(String),
    ObjectEnd,
}

impl View for Event {
    type V = EventView;

    open spec fn view(&self) -> EventView {
        match self {
            Event::DocumentBegin(n) => EventView::DocumentBegin(*n),
            Event::DocumentEnd => EventView::DocumentEnd,
            Event::Null => EventView::Null,
            Event::Bool(b) => EventView::Bool(*b),
            Event::I64(n) => EventView::I64(*n),
            Event::U64(n) => EventView::U64(*n),
            Event::F64(d) => EventView::F64(*d),
            Event::Text(s) => EventView::Text(s@),
            Event::ArrayBegin => EventView::ArrayBegin,
            Event::ArrayEnd => EventView::ArrayEnd,
            Event::ObjectBegin => EventView::ObjectBegin,
            Event::ObjectKey(s) => EventView::ObjectKey(s@),
            Event::ObjectEnd => EventView::ObjectEnd,
        }
    }
}

/// Records every event, in order.
#[derive(Debug)]
pub struct Recorder {
    pub events: Vec<Event>,
}

impl View for Recorder {
    type V = Seq<EventView>;

    open spec fn view(&self) -> Seq<EventView> {
        self.events@.map_values(|e: Event| e@)
    }
}

impl Recorder {
    pub fn new() -> (r: Recorder)
        ensures
            r@ == Seq::<EventView>::empty(),
    {
        let r = Recorder { events: Vec::new() };
        assert(r@ =~= Seq::<EventView>::empty());
        r
    }

    fn keep(&mut self, e: Event)
        ensures
            final(self)@ == old(self)@.push(e@),
    {
        self.events.push(e);
        assert(self@ =~= old(self)@.push(e@));
    }
}

impl JsonEventSink for Recorder {
    open spec fn inv(&self) -> bool {
        true
    }

    open spec fn accepts(s: Seq<EventView>, e: EventView) -> bool {
        true
    }

    open spec fn step(s: Seq<EventView>, e: EventView) -> Seq<EventView> {
        s.push(e)
    }

    fn document_begin(&mut self, doc_ordinal: u64) {
        self.keep(Event::DocumentBegin(doc_ordinal));
    }

    fn document_end(&mut self) {
        self.keep(Event::DocumentEnd);
    }

    fn null(&mut self) {
        self.keep(Event::Null);
    }

    fn bool(&mut self, v: bool) {
        self.keep(Event::Bool(v));
    }

    fn i64(&mut self, v: i64) {
        self.keep(Event::I64(v));
    }

    fn u64(&mut self, v: u64) {
        self.keep(Event::U64(v));
    }

    fn double(&mut self, v: Double) {
        self.keep(Event::F64(v));
    }

    fn string(&mut self, s: &str) {
        self.keep(Event::Text(s.to_string()));
    }

    fn array_begin(&mut self) {
        self.keep(Event::ArrayBegin);
    }

    fn array_end(&mut self) {
        self.keep(Event::ArrayEnd);
    }

    fn object_begin(&mut self) {
        self.keep(Event::ObjectBegin);
    }

    fn object_key(&mut self, key: &str) {
        self.keep(Event::ObjectKey(key.to_string()));
    }

    fn object_end(&mut self) {
        self.keep(Event::ObjectEnd);
    }
}

/// A recorder takes whatever it is told, and holds exactly that after.
pub proof fn law_records_are_faithful(start: Seq<EventView>, events: Seq<EventView>)
    ensures
        ingest::accepts_all::<Recorder>(start, events),
        ingest::after_all::<Recorder>(start, events) == start + events,
    decreases events.len(),
{
    if events.len() == 0 {
        assert(start + events =~= start);
    } else {
        law_records_are_faithful(start, events.drop_last());
        assert((start + events.drop_last()).push(events.last()) =~= start + events);
    }
}

} // verus!
