//! Every document is one that the analyzer takes.
use crate::analyze::arena::NodeView;
use crate::analyze::canon;
use crate::analyze::engine::StreamingAnalyzer;
use crate::analyze::machine::{FrameView, State};
use crate::analyze::sig::{ScalarKind, SigView};
use crate::analyze::upkeep;
use crate::ingest;
use crate::ingest::{EventView, JsonEventSink};
use crate::json::events;
use crate::json;
use crate::json::{Json, JsonView, Number};
use vstd::prelude::*;

verus! {

/// No array has more elements than a position can count, and none has elements
/// where the sketch of an array keeps no counter.
pub open spec fn countable(v: JsonView, cap: usize) -> bool
    decreases v,
{
    match v {
        JsonView::Array(items) => items.len() <= u32::MAX && (items.len() > 0 ==> cap > 0)
            && items_countable(items, cap),
        JsonView::Object(members) => members_countable(members, cap),
        _ => true,
    }
}

pub open spec fn items_countable(v: Seq<JsonView>, cap: usize) -> bool
    decreases v,
{
    v.len() == 0 || (items_countable(v.drop_last(), cap) && countable(v.last(), cap))
}

pub open spec fn members_countable(v: Seq<(Seq<char>, JsonView)>, cap: usize) -> bool
    decreases v,
{
    v.len() == 0 || (members_countable(v.drop_last(), cap) && countable(v.last().1, cap))
}

/// Nothing but what was seen differs.
pub open spec fn same_document(s: State, t: State) -> bool {
    t.policy == s.policy && t.doc_count == s.doc_count && t.current_doc == s.current_doc
}

/// The signature of a value.
pub open spec fn signature(v: JsonView) -> SigView
    decreases v,
{
    match v {
        JsonView::Null => SigView::Scalar(ScalarKind::Null),
        JsonView::Bool(_) => SigView::Scalar(ScalarKind::Bool),
        JsonView::Number(n) => SigView::Scalar(
            match n {
                Number::Positive(u) => if u <= i64::MAX {
                    ScalarKind::I64
                } else {
                    ScalarKind::U64
                },
                Number::Negative(_) => ScalarKind::I64,
                Number::Float(_) => ScalarKind::F64,
            },
        ),
        JsonView::Text(_) => SigView::Scalar(ScalarKind::String),
        JsonView::Array(items) => SigView::Array(
            Box::new(canon::homogenized(item_signatures(items))),
        ),
        JsonView::Object(members) => SigView::Record(
            canon::sorted_fields(member_signatures(members)),
        ),
    }
}

pub open spec fn item_signatures(v: Seq<JsonView>) -> Seq<SigView>
    decreases v,
{
    if v.len() == 0 {
        Seq::empty()
    } else {
        item_signatures(v.drop_last()).push(signature(v.last()))
    }
}

pub open spec fn member_signatures(v: Seq<(Seq<char>, JsonView)>) -> Seq<(Seq<char>, SigView)>
    decreases v,
{
    if v.len() == 0 {
        Seq::empty()
    } else {
        member_signatures(v.drop_last()).push((v.last().0, signature(v.last().1)))
    }
}

/// The root when a value below it, with signature `sig`, has come to its end:
/// where the value is an element of the root, it is clustered.
pub open spec fn root_after(s: State, sig: SigView) -> NodeView {
    let n = s.target().0.arena[0];
    match s.stack.last() {
        FrameView::Array { node, .. } => if node == 0 {
            NodeView { array: Some(n.array->Some_0.with_element(sig)), ..n }
        } else {
            n
        },
        FrameView::Object { .. } => n,
    }
}

/// One value with signature `sig` has come to its end: the container that it
/// is in is as it was, but for one more element, or for a key that is taken.
pub open spec fn settled(s: State, t: State, sig: SigView) -> bool {
    &&& t.pending is None
    &&& same_document(s, t)
    &&& t.stack.len() == s.stack.len()
    &&& t.arena[0].obs == s.arena[0].obs + (if s.stack.len() == 0 {
        1int
    } else {
        0
    })
    &&& t.stack.len() > 0 ==> t.stack.drop_last() == s.stack.drop_last()
    &&& t.stack.len() > 0 ==> match (s.stack.last(), t.stack.last()) {
        (
            FrameView::Array { node: m, position: p, children: c },
            FrameView::Array { node: n, position: q, children: d },
        ) => n == m && q == p + 1 && d == c.push(sig),
        (
            FrameView::Object { node: m, pending_key, members: c },
            FrameView::Object { node: n, pending_key: none, members: d },
        ) => n == m && none is None && d == c.push((pending_key->Some_0, sig)),
        _ => false,
    }
    &&& s.stack.len() > 0 ==> same_root(s.arena[0], t.arena[0])
    &&& s.stack.len() > 0 ==> t.arena[0] == root_after(s, sig)
}

/// Nothing was seen at the root itself.
pub open spec fn same_root(a: NodeView, b: NodeView) -> bool {
    &&& b.scalar_arms == a.scalar_arms
    &&& b.object is Some == a.object is Some
    &&& b.array is Some == a.array is Some
}

proof fn lemma_settled_scalar(s: State, t: State, v: SigView)
    requires
        s.wf(),
        s.takes_value(),
        t.stack == s.target().0.stack,
        t.pending == s.target().0.pending,
        same_document(s, t),
        t.arena.len() >= s.arena.len(),
        t.arena[0].obs == s.arena[0].obs + (if s.stack.len() == 0 {
            1int
        } else {
            0
        }),
        s.stack.len() == 0 ==> t.stack.len() == 0,
        s.stack.len() > 0 ==> same_root(s.arena[0], t.arena[0]),
        s.stack.len() > 0 ==> t.arena[0] == s.target().0.arena[0],
    ensures
        settled(s, t.emitted(v), v),
        t.emitted(v).events == t.events,
{
    if s.stack.len() > 0 {
        let k = s.stack.len() - 1;
        assert(s.stack[k] == s.stack.last());
        assert(upkeep::frame_ok(s.stack[k], s.arena, false, s.pending));
        let top = t.stack.last();
        assert(t.stack.drop_last() =~= s.stack.drop_last());
        let u = t.emitted(v);
        assert(u.stack.drop_last() =~= t.stack.drop_last());
    }
}

/// The signature of the scalar that an event tells of.
pub open spec fn scalar_signature(e: EventView) -> SigView {
    SigView::Scalar(
        match e {
            EventView::Bool(_) => ScalarKind::Bool,
            EventView::I64(_) => ScalarKind::I64,
            EventView::U64(_) => ScalarKind::U64,
            EventView::F64(_) => ScalarKind::F64,
            EventView::Text(_) => ScalarKind::String,
            _ => ScalarKind::Null,
        },
    )
}

/// A scalar settles.
proof fn lemma_scalar_settles(s: State, e: EventView)
    requires
        s.wf(),
        s.accepts(e),
        e is Null || e is Bool || e is I64 || e is U64 || e is F64 || e is Text,
    ensures
        s.step(e).wf(),
        settled(s, s.step(e), scalar_signature(e)),
        s.step(e).events == s.events + 1,
{
    upkeep::law_events_keep_the_invariant(s, e);
    upkeep::lemma_target(s);
    let (t, id) = s.target();
    assert(s.arena[0].wf(0, s.arena.len() as int, s.policy.caps(), s.events));
    match e {
        EventView::Null => {
            let n = t.arena[id].seen(s.current_doc).with_scalar(ScalarKind::Null);
            lemma_settled_scalar(s, t.put(id, n), SigView::Scalar(ScalarKind::Null));
        },
        EventView::Bool(_) => {
            let n = t.arena[id].seen(s.current_doc).with_scalar(ScalarKind::Bool);
            lemma_settled_scalar(s, t.put(id, n), SigView::Scalar(ScalarKind::Bool));
        },
        EventView::I64(v) => {
            let x = crate::analyze::stats::whole(v as int);
            let n = t.arena[id].seen(s.current_doc).with_scalar(ScalarKind::I64).with_number(
                x,
                true,
                s.bounds,
            );
            lemma_settled_scalar(s, t.put(id, n), SigView::Scalar(ScalarKind::I64));
        },
        EventView::U64(v) => {
            let x = crate::analyze::stats::whole(v as int);
            let n = t.arena[id].seen(s.current_doc).with_scalar(ScalarKind::U64).with_number(
                x,
                true,
                s.bounds,
            );
            lemma_settled_scalar(s, t.put(id, n), SigView::Scalar(ScalarKind::U64));
        },
        EventView::F64(x) => {
            let n = t.arena[id].seen(s.current_doc).with_scalar(ScalarKind::F64).with_number(
                x,
                false,
                s.bounds,
            );
            lemma_settled_scalar(s, t.put(id, n), SigView::Scalar(ScalarKind::F64));
        },
        EventView::Text(x) => {
            let n = t.arena[id].seen(s.current_doc).with_scalar(ScalarKind::String).with_string(
                x,
                s.bounds,
            );
            lemma_settled_scalar(s, t.put(id, n), SigView::Scalar(ScalarKind::String));
        },
        _ => {},
    }
}

/// A container that begins is the innermost one.
pub proof fn lemma_begins(s: State, e: EventView)
    requires
        s.wf(),
        s.accepts(e),
        e is ArrayBegin || e is ObjectBegin,
    ensures
        ({
            let t = s.step(e);
            &&& t.wf()
            &&& t.pending is None
            &&& same_document(s, t)
            &&& t.events == s.events + 1
            &&& t.stack.len() == s.stack.len() + 1
            &&& t.stack.drop_last() == s.target().0.stack
            &&& e is ArrayBegin ==> (t.stack.last() matches FrameView::Array { position, .. }
                && position == 0)
            &&& e is ObjectBegin ==> t.stack.last() is Object
            &&& t.arena[0].obs == s.arena[0].obs + (if s.stack.len() == 0 {
                1int
            } else {
                0
            })
            &&& s.stack.len() > 0 ==> same_root(s.arena[0], t.arena[0])
            &&& s.stack.len() > 0 ==> t.arena[0] == s.target().0.arena[0]
            &&& e is ArrayBegin ==> (s.stack.len() > 0 <==> t.stack.last()->Array_node > 0)
            &&& e is ObjectBegin ==> (s.stack.len() > 0 <==> t.stack.last()->Object_node > 0)
            &&& e is ArrayBegin ==> t.stack.last()->children.len() == 0
            &&& e is ObjectBegin ==> t.stack.last()->members.len() == 0
            &&& s.stack.len() == 0 && e is ObjectBegin ==> {
                &&& t.arena[0].scalar_arms == s.arena[0].scalar_arms
                &&& t.arena[0].array is Some == s.arena[0].array is Some
                &&& t.arena[0].object is Some
                &&& t.stack.last()->Object_node == 0
            }
            &&& s.stack.len() == 0 && e is ArrayBegin ==> {
                &&& t.arena[0].scalar_arms == s.arena[0].scalar_arms
                &&& t.arena[0].object is Some == s.arena[0].object is Some
                &&& t.arena[0].array is Some
                &&& t.stack.last()->Array_node == 0
            }
        }),
{
    upkeep::law_events_keep_the_invariant(s, e);
    upkeep::lemma_target(s);
    let (r, id) = s.target();
    assert(s.arena[0].wf(0, s.arena.len() as int, s.policy.caps(), s.events));
    let t = s.step(e);
    assert(t.stack.drop_last() =~= r.stack);
    if s.stack.len() > 0 {
        let k = s.stack.len() - 1;
        assert(s.stack[k] == s.stack.last());
        assert(upkeep::frame_ok(s.stack[k], s.arena, false, s.pending));
    }
}

/// A container that ends settles.
pub proof fn lemma_ends(s: State, t: State, e: EventView, sig: SigView)
    requires
        s.wf(),
        s.takes_value(),
        t.wf(),
        t.accepts(e),
        e is ArrayEnd || e is ObjectEnd,
        t.pending is None,
        same_document(s, t),
        t.stack.len() == s.stack.len() + 1,
        t.stack.drop_last() == s.target().0.stack,
        t.arena[0].obs == s.arena[0].obs + (if s.stack.len() == 0 {
            1int
        } else {
            0
        }),
        s.stack.len() > 0 ==> same_root(s.arena[0], t.arena[0]),
        s.stack.len() > 0 ==> t.arena[0] == s.target().0.arena[0],
        s.stack.len() > 0 ==> match t.stack.last() {
            FrameView::Array { node, .. } => node > 0,
            FrameView::Object { node, .. } => node > 0,
        },
        match t.stack.last() {
            FrameView::Array { children, .. } => sig == SigView::Array(
                Box::new(canon::homogenized(children)),
            ),
            FrameView::Object { members, .. } => sig == SigView::Record(
                canon::sorted_fields(members),
            ),
        },
    ensures
        ({
            let u = t.step(e);
            &&& u.wf()
            &&& settled(s, u, sig)
            &&& same_root(t.arena[0], u.arena[0])
            &&& u.events == t.events + 1
        }),
{
    upkeep::law_events_keep_the_invariant(t, e);
    let u = t.step(e);
    if s.stack.len() > 0 {
        let k = s.stack.len() - 1;
        assert(s.stack[k] == s.stack.last());
        assert(upkeep::frame_ok(s.stack[k], s.arena, false, s.pending));
        let below = t.stack.drop_last();
        assert(below.drop_last() =~= s.stack.drop_last());
        assert(u.stack.drop_last() =~= below.drop_last());
    }
}

/// Every value is one that the analyzer takes where it takes a value.
pub proof fn lemma_value(s: State, v: JsonView)
    requires
        s.wf(),
        s.takes_value(),
        s.clusters(),
        countable(v, s.policy.cluster_cap),
        s.events + events::events_of(v).len() <= u64::MAX,
    ensures
        ingest::accepts_all::<StreamingAnalyzer>(s, events::events_of(v)),
        ({
            let t = ingest::after_all::<StreamingAnalyzer>(s, events::events_of(v));
            &&& t.wf()
            &&& settled(s, t, signature(v))
            &&& t.events == s.events + events::events_of(v).len()
            &&& s.stack.len() == 0 && v is Object ==> {
                &&& t.arena[0].scalar_arms == s.arena[0].scalar_arms
                &&& t.arena[0].array is Some == s.arena[0].array is Some
                &&& t.arena[0].object is Some
            }
            &&& s.stack.len() == 0 && v is Array ==> {
                &&& t.arena[0].scalar_arms == s.arena[0].scalar_arms
                &&& t.arena[0].object is Some == s.arena[0].object is Some
                &&& t.arena[0].array is Some
            }
        }),
    decreases v,
{
    match v {
        JsonView::Array(items) => {
            let open = EventView::ArrayBegin;
            let close = EventView::ArrayEnd;
            let all = events::item_events(items);
            events::lemma_single::<StreamingAnalyzer>(s, open);
            events::lemma_split::<StreamingAnalyzer>(s, seq![open], all);
            events::lemma_split::<StreamingAnalyzer>(s, seq![open] + all, seq![close]);
            lemma_begins(s, open);
            let o = s.step(open);
            lemma_items(o, items);
            let t = ingest::after_all::<StreamingAnalyzer>(o, all);
            events::lemma_single::<StreamingAnalyzer>(t, close);
            lemma_ends(s, t, close, signature(v));
        },
        JsonView::Object(members) => {
            let open = EventView::ObjectBegin;
            let close = EventView::ObjectEnd;
            let all = events::member_events(members);
            events::lemma_single::<StreamingAnalyzer>(s, open);
            events::lemma_split::<StreamingAnalyzer>(s, seq![open], all);
            events::lemma_split::<StreamingAnalyzer>(s, seq![open] + all, seq![close]);
            lemma_begins(s, open);
            let o = s.step(open);
            lemma_members(o, members);
            let t = ingest::after_all::<StreamingAnalyzer>(o, all);
            events::lemma_single::<StreamingAnalyzer>(t, close);
            lemma_ends(s, t, close, signature(v));
        },
        JsonView::Null => {
            events::lemma_single::<StreamingAnalyzer>(s, EventView::Null);
            lemma_scalar_settles(s, EventView::Null);
        },
        JsonView::Bool(b) => {
            events::lemma_single::<StreamingAnalyzer>(s, EventView::Bool(b));
            lemma_scalar_settles(s, EventView::Bool(b));
        },
        JsonView::Number(n) => {
            events::lemma_single::<StreamingAnalyzer>(s, events::number_event(n));
            lemma_scalar_settles(s, events::number_event(n));
        },
        JsonView::Text(x) => {
            events::lemma_single::<StreamingAnalyzer>(s, EventView::Text(x));
            lemma_scalar_settles(s, EventView::Text(x));
        },
    }
}

/// The items of an array, in an array that has just begun.
pub proof fn lemma_items(o: State, v: Seq<JsonView>)
    requires
        o.wf(),
        o.pending is None,
        o.stack.len() > 0,
        o.stack.last() matches FrameView::Array { position, children, .. } && position == 0
            && children.len() == 0,
        v.len() <= u32::MAX,
        v.len() > 0 ==> o.policy.cluster_cap > 0,
        items_countable(v, o.policy.cluster_cap),
        o.events + events::item_events(v).len() <= u64::MAX,
    ensures
        ingest::accepts_all::<StreamingAnalyzer>(o, events::item_events(v)),
        ({
            let t = ingest::after_all::<StreamingAnalyzer>(o, events::item_events(v));
            &&& t.wf()
            &&& t.pending is None
            &&& same_document(o, t)
            &&& t.stack.len() == o.stack.len()
            &&& t.stack.drop_last() == o.stack.drop_last()
            &&& t.arena[0].obs == o.arena[0].obs
            &&& same_root(o.arena[0], t.arena[0])
            &&& o.stack.last()->Array_node > 0 ==> t.arena[0] == o.arena[0]
            &&& t.stack.last() matches FrameView::Array { node, position, children } && position
                == v.len() && node == o.stack.last()->Array_node && children == item_signatures(v)
            &&& t.events == o.events + events::item_events(v).len()
        }),
    decreases v,
{
    if v.len() > 0 {
        let front = v.drop_last();
        lemma_items(o, front);
        let s = ingest::after_all::<StreamingAnalyzer>(o, events::item_events(front));
        lemma_value(s, v.last());
        events::lemma_split::<StreamingAnalyzer>(
            o,
            events::item_events(front),
            events::events_of(v.last()),
        );
    }
}

/// A key waits for its value, and nothing else differs.
pub proof fn lemma_key(s: State, key: Seq<char>)
    requires
        s.wf(),
        s.accepts(EventView::ObjectKey(key)),
    ensures
        ({
            let t = s.step(EventView::ObjectKey(key));
            &&& t.wf()
            &&& t.pending is Some
            &&& same_document(s, t)
            &&& t.stack.len() == s.stack.len()
            &&& t.stack.drop_last() == s.stack.drop_last()
            &&& t.stack.last() is Object
            &&& t.stack.last()->Object_node == s.stack.last()->Object_node
            &&& t.stack.last()->members == s.stack.last()->members
            &&& t.stack.last()->pending_key == Some(key)
            &&& t.arena[0].obs == s.arena[0].obs
            &&& same_root(s.arena[0], t.arena[0])
            &&& s.stack.last()->Object_node > 0 ==> t.arena[0] == s.arena[0]
            &&& t.events == s.events + 1
        }),
{
    upkeep::law_events_keep_the_invariant(s, EventView::ObjectKey(key));
    let t = s.step(EventView::ObjectKey(key));
    let k = s.stack.len() - 1;
    assert(s.stack[k] == s.stack.last());
    assert(upkeep::frame_ok(s.stack[k], s.arena, false, s.pending));
    assert(t.stack.drop_last() =~= s.stack.drop_last());
}

pub proof fn lemma_members(o: State, v: Seq<(Seq<char>, JsonView)>)
    requires
        o.wf(),
        o.pending is None,
        o.stack.len() > 0,
        o.stack.last() is Object,
        o.stack.last()->members.len() == 0,
        members_countable(v, o.policy.cluster_cap),
        o.events + events::member_events(v).len() <= u64::MAX,
    ensures
        ingest::accepts_all::<StreamingAnalyzer>(o, events::member_events(v)),
        ({
            let t = ingest::after_all::<StreamingAnalyzer>(o, events::member_events(v));
            &&& t.wf()
            &&& t.pending is None
            &&& same_document(o, t)
            &&& t.stack.len() == o.stack.len()
            &&& t.stack.drop_last() == o.stack.drop_last()
            &&& t.arena[0].obs == o.arena[0].obs
            &&& same_root(o.arena[0], t.arena[0])
            &&& o.stack.last()->Object_node > 0 ==> t.arena[0] == o.arena[0]
            &&& t.stack.last() is Object
            &&& t.stack.last()->Object_node == o.stack.last()->Object_node
            &&& t.stack.last()->members == member_signatures(v)
            &&& t.events == o.events + events::member_events(v).len()
        }),
    decreases v,
{
    if v.len() > 0 {
        let front = v.drop_last();
        lemma_members(o, front);
        let before = events::member_events(front);
        let s = ingest::after_all::<StreamingAnalyzer>(o, before);
        let key = EventView::ObjectKey(v.last().0);
        events::lemma_single::<StreamingAnalyzer>(s, key);
        lemma_key(s, v.last().0);
        let k = s.step(key);
        lemma_value(k, v.last().1);
        events::lemma_split::<StreamingAnalyzer>(o, before, seq![key]);
        events::lemma_split::<StreamingAnalyzer>(
            o,
            before + seq![key],
            events::events_of(v.last().1),
        );
    }
}

/// Every document, from an analyzer between documents, is taken to its end,
/// and leaves the analyzer between documents, with one document and one
/// observation of the root more. Left out are only documents with an array
/// of more than 2^32 - 1 elements, or with elements at all where the sketch of
/// an array keeps no counter, and analyzers that run out of events to count.
pub proof fn law_documents_are_taken(s: State, ordinal: u64, v: JsonView)
    requires
        s.wf(),
        s.idle(),
        countable(v, s.policy.cluster_cap),
        s.events + events::document_events(ordinal, v).len() <= u64::MAX,
    ensures
        ingest::accepts_all::<StreamingAnalyzer>(s, events::document_events(ordinal, v)),
        ({
            let t = ingest::after_all::<StreamingAnalyzer>(
                s,
                events::document_events(ordinal, v),
            );
            &&& t.wf()
            &&& t.idle()
            &&& t.doc_count == s.doc_count + 1
            &&& t.arena[0].obs == s.arena[0].obs + 1
            &&& t.policy == s.policy
            &&& t.events == s.events + events::document_events(ordinal, v).len()
            &&& v is Object ==> {
                &&& t.arena[0].scalar_arms == s.arena[0].scalar_arms
                &&& t.arena[0].array is Some == s.arena[0].array is Some
                &&& t.arena[0].object is Some
            }
            &&& v is Array ==> {
                &&& t.arena[0].scalar_arms == s.arena[0].scalar_arms
                &&& t.arena[0].object is Some == s.arena[0].object is Some
                &&& t.arena[0].array is Some
            }
        }),
{
    let open = EventView::DocumentBegin(ordinal);
    let close = EventView::DocumentEnd;
    let body = events::events_of(v);
    events::lemma_single::<StreamingAnalyzer>(s, open);
    upkeep::law_events_keep_the_invariant(s, open);
    let o = s.step(open);
    lemma_value(o, v);
    let t = ingest::after_all::<StreamingAnalyzer>(o, body);
    events::lemma_single::<StreamingAnalyzer>(t, close);
    upkeep::law_events_keep_the_invariant(t, close);
    events::lemma_split::<StreamingAnalyzer>(s, seq![open], body);
    events::lemma_split::<StreamingAnalyzer>(s, seq![open] + body, seq![close]);
}

// ---------------------------------------------------------------------
// Measuring
// ---------------------------------------------------------------------

pub open spec fn measured(v: JsonView, cap: usize) -> Option<u64> {
    if countable(v, cap) && events::events_of(v).len() <= u64::MAX {
        Some(events::events_of(v).len() as u64)
    } else {
        None
    }
}

proof fn lemma_items_upto(v: Seq<JsonView>, cap: usize, k: int)
    requires
        0 <= k < v.len(),
    ensures
        items_countable(v, cap) ==> items_countable(v.take(k), cap) && countable(v[k], cap),
        events::item_events(v.take(k)).len() + events::events_of(v[k]).len()
            <= events::item_events(v).len(),
    decreases v.len(),
{
    let front = v.drop_last();
    if k == v.len() - 1 {
        assert(v.take(k) =~= front);
    } else {
        assert(front.take(k) =~= v.take(k));
        lemma_items_upto(front, cap, k);
    }
}

proof fn lemma_members_upto(v: Seq<(Seq<char>, JsonView)>, cap: usize, k: int)
    requires
        0 <= k < v.len(),
    ensures
        members_countable(v, cap) ==> members_countable(v.take(k), cap) && countable(v[k].1, cap),
        events::member_events(v.take(k)).len() + 1 + events::events_of(v[k].1).len()
            <= events::member_events(v).len(),
    decreases v.len(),
{
    let front = v.drop_last();
    if k == v.len() - 1 {
        assert(v.take(k) =~= front);
    } else {
        assert(front.take(k) =~= v.take(k));
        lemma_members_upto(front, cap, k);
    }
}

/// How many events a value is, where the sketch of an array keeps `cap`
/// counters. None where it is not one that can be counted: an array of more
/// than 2^32 - 1 elements, or of any where there is no counter, or more events
/// than 64 bits hold.
pub fn measure(v: &Json, cap: usize) -> (r: Option<u64>)
    ensures
        r == measured(v@, cap),
    decreases v,
{
    match v {
        Json::Array(items) => {
            let ghost all = json::items_view(items@);
            proof {
                json::lemma_items_view(items@);
                assert(all.take(0) =~= Seq::empty());
            }
            if items.len() as u64 > u32::MAX as u64 || (items.len() > 0 && cap == 0) {
                return None;
            }
            let mut n: u64 = 2;
            let mut i: usize = 0;
            while i < items.len()
                invariant
                    i <= items@.len() == all.len(),
                    items@.len() <= u32::MAX,
                    items@.len() > 0 ==> cap > 0,
                    *v == Json::Array(*items),
                    all == json::items_view(items@),
                    forall|k: int|
                        0 <= k < all.len() ==> #[trigger] all[k] == json::json_view(items@[k]),
                    items_countable(all.take(i as int), cap),
                    n == 2 + events::item_events(all.take(i as int)).len(),
                decreases items@.len() - i,
            {
                proof {
                    assert(decreases_to!(*v => v->Array_0));
                    assert(decreases_to!(v->Array_0 => items@[i as int]));
                    assert(all[i as int] == items@[i as int]@);
                    lemma_items_upto(all, cap, i as int);
                    assert(all.take(i + 1).drop_last() =~= all.take(i as int));
                }
                match measure(&items[i], cap) {
                    None => {
                        return None;
                    },
                    Some(m) => match n.checked_add(m) {
                        None => {
                            return None;
                        },
                        Some(sum) => {
                            n = sum;
                        },
                    },
                }
                i += 1;
            }
            assert(all.take(i as int) =~= all);
            Some(n)
        },
        Json::Object(members) => {
            let ghost all = json::members_view(members@);
            proof {
                json::lemma_members_view(members@);
                assert(all.take(0) =~= Seq::empty());
            }
            let mut n: u64 = 2;
            let mut i: usize = 0;
            while i < members.len()
                invariant
                    i <= members@.len() == all.len(),
                    *v == Json::Object(*members),
                    all == json::members_view(members@),
                    forall|k: int|
                        0 <= k < all.len() ==> #[trigger] all[k] == (
                            members@[k].0@,
                            json::json_view(members@[k].1),
                        ),
                    members_countable(all.take(i as int), cap),
                    n == 2 + events::member_events(all.take(i as int)).len(),
                decreases members@.len() - i,
            {
                proof {
                    assert(decreases_to!(*v => v->Object_0));
                    assert(decreases_to!(v->Object_0 => members@[i as int].1));
                    assert(all[i as int].1 == members@[i as int].1@);
                    lemma_members_upto(all, cap, i as int);
                    assert(all.take(i + 1).drop_last() =~= all.take(i as int));
                }
                match measure(&members[i].1, cap) {
                    None => {
                        return None;
                    },
                    Some(m) => {
                        if m == u64::MAX {
                            return None;
                        }
                        match n.checked_add(m + 1) {
                            None => {
                                return None;
                            },
                            Some(sum) => {
                                n = sum;
                            },
                        }
                    },
                }
                i += 1;
            }
            assert(all.take(i as int) =~= all);
            Some(n)
        },
        _ => Some(1),
    }
}

} // verus!
