//! What the analyzer makes of a stream of objects, whatever is in them.
use crate::analyze::arena;
use crate::analyze::arena::NodeView;
use crate::analyze::engine;
use crate::analyze::engine::StreamingAnalyzer;
use crate::analyze::finish;
use crate::analyze::machine::{FrameView, PolicyView, State};
use crate::analyze::memory;
use crate::analyze::shape;
use crate::analyze::sig::ScalarKind;
use crate::analyze::upkeep;
use crate::ingest;
use crate::ingest::{EventView, JsonEventSink};
use crate::json::events;
use crate::json::inference;
use crate::json::laws;
use crate::json::optional;
use crate::json::{JsonView, Number};
use crate::node::{KindView, ShapeFieldView, ShapeView};
use crate::value::{StructFieldView, TypeView};
use vstd::prelude::*;

verus! {

// ---------------------------------------------------------------------
// Keys
// ---------------------------------------------------------------------

/// The keys of an object that are not among the known ones are put behind
/// them, in the order in which they come.
pub open spec fn with_keys(
    known: Seq<Seq<char>>,
    members: Seq<(Seq<char>, JsonView)>,
) -> Seq<Seq<char>>
    decreases members.len(),
{
    if members.len() == 0 {
        known
    } else {
        let front = with_keys(known, members.drop_last());
        if front.contains(members.last().0) {
            front
        } else {
            front.push(members.last().0)
        }
    }
}

/// The keys of a stream of objects, each once, in the order in which they were
/// first seen.
pub open spec fn keys_of(docs: Seq<(u64, JsonView)>) -> Seq<Seq<char>>
    decreases docs.len(),
{
    if docs.len() == 0 {
        Seq::empty()
    } else {
        with_keys(keys_of(docs.drop_last()), docs.last().1->Object_0)
    }
}

/// Every document is an object.
pub open spec fn all_objects(docs: Seq<(u64, JsonView)>) -> bool {
    forall|i: int| 0 <= i < docs.len() ==> (#[trigger] docs[i]).1 is Object
}

/// The names of the fields.
pub open spec fn names(fields: Seq<(Seq<char>, int)>) -> Seq<Seq<char>> {
    fields.map_values(|f: (Seq<char>, int)| f.0)
}

/// The root after `n` objects with `total` keys in all, of which `known` are
/// the different ones.
#[verifier::opaque]
pub open spec fn root_is(
    root: NodeView,
    cap: usize,
    n: int,
    known: Seq<Seq<char>>,
    total: int,
) -> bool {
    &&& root.scalar_arms == Seq::new(6, |i: int| 0u64)
    &&& root.array is None
    &&& root.obs == n
    &&& root.object matches Some(o) && {
        &&& o.obs == n
        &&& o.key_count_sum == total
        &&& if known.len() <= cap {
            o.record_alive && names(o.fields) == known
        } else {
            !o.record_alive
        }
    }
}

/// Inside the object at the root, between two members.
#[verifier::opaque]
pub open spec fn inside(s: State) -> bool {
    &&& s.wf()
    &&& s.pending is None
    &&& s.stack.len() == 1
    &&& s.stack.last() matches FrameView::Object { node, .. } && node == 0
}

proof fn lemma_has_field(fields: Seq<(Seq<char>, int)>, key: Seq<char>)
    ensures
        arena::has_field(fields, key) <==> names(fields).contains(key),
{
    let v = names(fields);
    if arena::has_field(fields, key) {
        let i = choose|i: int| 0 <= i < fields.len() && (#[trigger] fields[i]).0 == key;
        assert(v[i] == key);
    }
    if v.contains(key) {
        let i = choose|i: int| 0 <= i < v.len() && v[i] == key;
        assert(fields[i].0 == key);
    }
}

/// A key of the root: it is known from now on.
proof fn lemma_key_at_root(
    s: State,
    key: Seq<char>,
    n: int,
    known: Seq<Seq<char>>,
    total: int,
)
    requires
        inside(s),
        s.events < u64::MAX,
        root_is(s.arena[0], s.policy.record_view_cap, n, known, total),
    ensures
        ({
            let t = s.step(EventView::ObjectKey(key));
            let more = if known.contains(key) {
                known
            } else {
                known.push(key)
            };
            &&& s.accepts(EventView::ObjectKey(key))
            &&& root_is(t.arena[0], s.policy.record_view_cap, n, more, total + 1)
            &&& t.arena[0].first_doc == s.arena[0].first_doc
            &&& t.arena[0].last_doc == s.arena[0].last_doc
            &&& t.pending is Some
            &&& t.object_at(0).record_alive ==> exists|i: int|
                0 <= i < t.object_at(0).fields.len() && #[trigger] t.object_at(0).fields[i] == (
                    key,
                    t.pending->Some_0,
                )
        }),
{
    reveal(inside);
    reveal(root_is);
    let e = EventView::ObjectKey(key);
    let t = s.step(e);
    let o = s.object_at(0);
    assert(s.arena[0].wf(0, s.arena.len() as int, s.policy.caps(), s.events));
    lemma_has_field(o.fields, key);
    let u = t.object_at(0);
    if arena::has_field(o.fields, key) {
        let i = arena::field_of(o.fields, key);
        assert(o.fields[i].0 == key);
        assert(u.fields[i] == (key, t.pending->Some_0));
    } else if o.record_alive && o.fields.len() < s.policy.record_view_cap {
        assert(names(u.fields) =~= names(o.fields).push(key));
        assert(u.fields[o.fields.len() as int] == (key, t.pending->Some_0));
    }
    if known.len() <= s.policy.record_view_cap {
        assert(names(o.fields).len() == o.fields.len());
    }
}

/// One member of the root.
proof fn lemma_member_at_root(
    s: State,
    key: Seq<char>,
    v: JsonView,
    n: int,
    known: Seq<Seq<char>>,
    total: int,
)
    requires
        inside(s),
        laws::countable(v, s.policy.cluster_cap),
        s.events + 1 + events::events_of(v).len() <= u64::MAX,
        root_is(s.arena[0], s.policy.record_view_cap, n, known, total),
    ensures
        ({
            let all = seq![EventView::ObjectKey(key)] + events::events_of(v);
            let t = ingest::after_all::<StreamingAnalyzer>(s, all);
            let more = if known.contains(key) {
                known
            } else {
                known.push(key)
            };
            &&& ingest::accepts_all::<StreamingAnalyzer>(s, all)
            &&& inside(t)
            &&& t.policy == s.policy
            &&& t.events == s.events + all.len()
            &&& t.current_doc == s.current_doc
            &&& root_is(t.arena[0], s.policy.record_view_cap, n, more, total + 1)
            &&& t.arena[0].first_doc == s.arena[0].first_doc
            &&& t.arena[0].last_doc == s.arena[0].last_doc
            &&& kept(t.arena, key, v)
        }),
{
    reveal(inside);
    reveal(root_is);
    let e = EventView::ObjectKey(key);
    lemma_key_at_root(s, key, n, known, total);
    laws::lemma_key(s, key);
    let p = s.step(e);
    assert(p.stack.drop_last() =~= Seq::empty());
    events::lemma_single::<StreamingAnalyzer>(s, e);
    events::lemma_split::<StreamingAnalyzer>(s, seq![e], events::events_of(v));
    laws::lemma_value(p, v);
    let t = ingest::after_all::<StreamingAnalyzer>(p, events::events_of(v));
    assert(t.arena[0] == p.arena[0]);
    assert(t.stack.drop_last() =~= Seq::empty());
    lemma_evident(p, v);
    if t.object_at(0).record_alive {
        let child = p.pending->Some_0;
        let i = choose|i: int|
            0 <= i < p.object_at(0).fields.len() && #[trigger] p.object_at(0).fields[i] == (
                key,
                child,
            );
        assert(t.object_at(0).fields[i].0 == key);
    }
    lemma_newly_kept(t, key, v);
}

// ---------------------------------------------------------------------
// Values
// ---------------------------------------------------------------------

/// The node has seen a value of the kind that `v` is of: null, a bool, a
/// number that is signed, unsigned or a double, a text, an array or an object.
pub open spec fn evident(n: NodeView, v: JsonView) -> bool {
    match v {
        JsonView::Null => n.scalar_arms[0] > 0,
        JsonView::Bool(_) => n.scalar_arms[1] > 0,
        JsonView::Number(Number::Positive(u)) => if u <= i64::MAX {
            n.scalar_arms[2] > 0
        } else {
            n.scalar_arms[3] > 0
        },
        JsonView::Number(Number::Negative(_)) => n.scalar_arms[2] > 0,
        JsonView::Number(Number::Float(_)) => n.scalar_arms[4] > 0,
        JsonView::Text(_) => n.scalar_arms[5] > 0,
        JsonView::Array(_) => n.array is Some,
        JsonView::Object(_) => n.object is Some,
    }
}

/// The node of a value has seen the value when it has come to its end.
pub proof fn lemma_evident(p: State, v: JsonView)
    requires
        p.wf(),
        p.pending is Some,
        p.clusters(),
        laws::countable(v, p.policy.cluster_cap),
        p.events + events::events_of(v).len() <= u64::MAX,
        p.stack.len() > 0 ==> p.stack.last() is Object,
    ensures
        evident(
            ingest::after_all::<StreamingAnalyzer>(p, events::events_of(v)).arena[p.pending->Some_0],
            v,
        ),
{
    laws::lemma_value(p, v);
    let child = p.pending->Some_0;
    let body = events::events_of(v);
    let t = ingest::after_all::<StreamingAnalyzer>(p, body);
    assert(p.arena[child].wf(child, p.arena.len() as int, p.policy.caps(), p.events));
    assert(p.arena[child].balanced());
    match v {
        JsonView::Array(items) => {
            let open = EventView::ArrayBegin;
            let rest = events::item_events(items) + seq![EventView::ArrayEnd];
            assert(body =~= seq![open] + rest);
            events::lemma_single::<StreamingAnalyzer>(p, open);
            events::lemma_split::<StreamingAnalyzer>(p, seq![open], rest);
            laws::lemma_begins(p, open);
            let o = p.step(open);
            assert(o.arena[child].array is Some);
            memory::law_nothing_is_taken_back(o, rest);
            assert(memory::node_after(o.arena[child], t.arena[child]));
        },
        JsonView::Object(members) => {
            let open = EventView::ObjectBegin;
            let rest = events::member_events(members) + seq![EventView::ObjectEnd];
            assert(body =~= seq![open] + rest);
            events::lemma_single::<StreamingAnalyzer>(p, open);
            events::lemma_split::<StreamingAnalyzer>(p, seq![open], rest);
            laws::lemma_begins(p, open);
            let o = p.step(open);
            assert(o.arena[child].object is Some);
            memory::law_nothing_is_taken_back(o, rest);
            assert(memory::node_after(o.arena[child], t.arena[child]));
        },
        JsonView::Null => {
            events::lemma_single::<StreamingAnalyzer>(p, EventView::Null);
        },
        JsonView::Bool(b) => {
            events::lemma_single::<StreamingAnalyzer>(p, EventView::Bool(b));
        },
        JsonView::Number(n) => {
            events::lemma_single::<StreamingAnalyzer>(p, events::number_event(n));
        },
        JsonView::Text(x) => {
            events::lemma_single::<StreamingAnalyzer>(p, EventView::Text(x));
        },
    }
}

proof fn lemma_still_evident(a: NodeView, b: NodeView, v: JsonView)
    requires
        memory::node_after(a, b),
        a.scalar_arms.len() == 6,
        evident(a, v),
    ensures
        evident(b, v),
{
    assert(forall|i: int| 0 <= i < 6 ==> a.scalar_arms[i] <= #[trigger] b.scalar_arms[i]);
}

// ---------------------------------------------------------------------
// Objects
// ---------------------------------------------------------------------

/// A field of the root that has seen a value of the kind of `v`, or no fields
/// any more.
#[verifier::opaque]
pub open spec fn kept(arena: Seq<NodeView>, key: Seq<char>, v: JsonView) -> bool {
    arena[0].object matches Some(o) && (o.record_alive ==> exists|i: int|
        0 <= i < o.fields.len() && (#[trigger] o.fields[i]).0 == key && 0 <= o.fields[i].1
            < arena.len() && evident(arena[o.fields[i].1], v))
}

/// What was kept stays.
proof fn lemma_kept(a: State, b: Seq<NodeView>, key: Seq<char>, v: JsonView)
    requires
        a.wf(),
        memory::arena_after(a.arena, b),
        kept(a.arena, key, v),
    ensures
        kept(b, key, v),
{
    reveal(kept);
    assert(memory::node_after(a.arena[0], b[0]));
    let o = a.arena[0].object->Some_0;
    let u = b[0].object->Some_0;
    if u.record_alive {
        let i = choose|i: int|
            0 <= i < o.fields.len() && (#[trigger] o.fields[i]).0 == key && 0 <= o.fields[i].1
                < a.arena.len() && evident(a.arena[o.fields[i].1], v);
        assert(o.fields[i] == u.fields.subrange(0, o.fields.len() as int)[i]);
        let child = o.fields[i].1;
        assert(a.arena[child].wf(child, a.arena.len() as int, a.policy.caps(), a.events));
        assert(memory::node_after(a.arena[child], b[child]));
        lemma_still_evident(a.arena[child], b[child], v);
        assert(u.fields[i].0 == key);
    }
}

/// What a field of the root has just seen is kept.
proof fn lemma_newly_kept(t: State, key: Seq<char>, v: JsonView)
    requires
        t.wf(),
        t.arena[0].object is Some,
        t.object_at(0).record_alive ==> exists|i: int|
            0 <= i < t.object_at(0).fields.len() && (#[trigger] t.object_at(0).fields[i]).0 == key
                && evident(t.arena[t.object_at(0).fields[i].1], v),
    ensures
        kept(t.arena, key, v),
{
    reveal(kept);
    let o = t.object_at(0);
    if o.record_alive {
        let i = choose|i: int|
            0 <= i < t.object_at(0).fields.len() && (#[trigger] t.object_at(0).fields[i]).0 == key
                && evident(t.arena[t.object_at(0).fields[i].1], v);
        assert(t.arena[0].wf(0, t.arena.len() as int, t.policy.caps(), t.events));
        assert(o.fields[i].0 == key);
    }
}

proof fn lemma_kept_inside(a: State, body: Seq<EventView>, key: Seq<char>, v: JsonView)
    requires
        inside(a),
        ingest::accepts_all::<StreamingAnalyzer>(a, body),
        kept(a.arena, key, v),
    ensures
        kept(ingest::after_all::<StreamingAnalyzer>(a, body).arena, key, v),
{
    reveal(inside);
    memory::law_nothing_is_taken_back(a, body);
    lemma_kept(a, ingest::after_all::<StreamingAnalyzer>(a, body).arena, key, v);
}

/// The members of an object at the root, one after the other.
#[verifier::spinoff_prover]
#[verifier::rlimit(40)]
proof fn lemma_members_at_root(
    s: State,
    members: Seq<(Seq<char>, JsonView)>,
    n: int,
    known: Seq<Seq<char>>,
    total: int,
)
    requires
        inside(s),
        laws::members_countable(members, s.policy.cluster_cap),
        s.events + events::member_events(members).len() <= u64::MAX,
        root_is(s.arena[0], s.policy.record_view_cap, n, known, total),
    ensures
        ({
            let all = events::member_events(members);
            let t = ingest::after_all::<StreamingAnalyzer>(s, all);
            &&& ingest::accepts_all::<StreamingAnalyzer>(s, all)
            &&& inside(t)
            &&& t.policy == s.policy
            &&& t.events == s.events + all.len()
            &&& t.current_doc == s.current_doc
            &&& root_is(
                t.arena[0],
                s.policy.record_view_cap,
                n,
                with_keys(known, members),
                total + members.len(),
            )
            &&& t.arena[0].first_doc == s.arena[0].first_doc
            &&& t.arena[0].last_doc == s.arena[0].last_doc
            &&& forall|m: int|
                0 <= m < members.len() ==> kept(
                    t.arena,
                    (#[trigger] members[m]).0,
                    members[m].1,
                )
        }),
    decreases members.len(),
{
    if members.len() > 0 {
        let front = members.drop_last();
        let (key, v) = members.last();
        let before = events::member_events(front);
        let body = seq![EventView::ObjectKey(key)] + events::events_of(v);
        assert(events::member_events(members) =~= before + body);
        lemma_members_at_root(s, front, n, known, total);
        let a = ingest::after_all::<StreamingAnalyzer>(s, before);
        let between = with_keys(known, front);
        lemma_member_at_root(a, key, v, n, between, total + front.len());
        events::lemma_split::<StreamingAnalyzer>(s, before, body);
        let t = ingest::after_all::<StreamingAnalyzer>(a, body);
        assert forall|m: int| 0 <= m < members.len() implies kept(
            t.arena,
            (#[trigger] members[m]).0,
            members[m].1,
        ) by {
            if m < front.len() {
                assert(front[m] == members[m]);
                lemma_kept_inside(a, body, members[m].0, members[m].1);
            }
        }
    }
}

/// An object opens at the root.
proof fn lemma_opened(s: State, ordinal: u64, n: int, known: Seq<Seq<char>>, total: int)
    requires
        s.wf(),
        s.idle(),
        s.events + 2 <= u64::MAX,
        if n == 0 {
            s.arena[0] == NodeView::empty() && known.len() == 0 && total == 0
        } else {
            root_is(s.arena[0], s.policy.record_view_cap, n, known, total)
        },
        n >= 0,
    ensures
        ({
            let a = s.step(EventView::DocumentBegin(ordinal));
            let b = a.step(EventView::ObjectBegin);
            &&& s.accepts(EventView::DocumentBegin(ordinal))
            &&& a.accepts(EventView::ObjectBegin)
            &&& inside(b)
            &&& b.policy == s.policy
            &&& b.events == s.events + 2
            &&& root_is(b.arena[0], s.policy.record_view_cap, n + 1, known, total)
            &&& b.arena[0].first_doc == (if n == 0 {
                ordinal
            } else {
                s.arena[0].first_doc
            })
            &&& b.arena[0].last_doc == ordinal
        }),
{
    reveal(inside);
    reveal(root_is);
    let open = EventView::DocumentBegin(ordinal);
    let begin = EventView::ObjectBegin;
    upkeep::law_events_keep_the_invariant(s, open);
    assert(s.arena[0].wf(0, s.arena.len() as int, s.policy.caps(), s.events));
    let a = s.step(open);
    laws::lemma_begins(a, begin);
    let b = a.step(begin);
    assert(b.stack.drop_last() =~= Seq::empty());
    if n == 0 {
        assert(names(b.object_at(0).fields) =~= known);
    } else {
        assert(b.object_at(0).fields == s.object_at(0).fields);
    }
}

/// The object at the root comes to its end, and the document with it.
proof fn lemma_closed(c: State, n: int, known: Seq<Seq<char>>, total: int)
    requires
        inside(c),
        c.events + 2 <= u64::MAX,
        root_is(c.arena[0], c.policy.record_view_cap, n, known, total),
    ensures
        ({
            let d = c.step(EventView::ObjectEnd);
            let t = d.step(EventView::DocumentEnd);
            &&& c.accepts(EventView::ObjectEnd)
            &&& d.accepts(EventView::DocumentEnd)
            &&& root_is(t.arena[0], c.policy.record_view_cap, n, known, total)
            &&& t.arena[0].first_doc == c.arena[0].first_doc
            &&& t.arena[0].last_doc == c.arena[0].last_doc
        }),
{
    reveal(inside);
    reveal(root_is);
    let d = c.step(EventView::ObjectEnd);
    assert(d.stack.len() == 0);
    assert(d.object_at(0).fields == c.object_at(0).fields);
}

/// The events of an object as a document, in their order.
#[verifier::spinoff_prover]
proof fn lemma_document_events(s: State, ordinal: u64, members: Seq<(Seq<char>, JsonView)>)
    ensures
        ({
            let all = events::document_events(ordinal, JsonView::Object(members));
            let inner = events::member_events(members);
            let b = s.step(EventView::DocumentBegin(ordinal)).step(EventView::ObjectBegin);
            let c = ingest::after_all::<StreamingAnalyzer>(b, inner);
            let ending = seq![EventView::ObjectEnd, EventView::DocumentEnd];
            &&& ingest::after_all::<StreamingAnalyzer>(s, all) == ingest::after_all::<
                StreamingAnalyzer,
            >(c, ending)
            &&& ingest::after_all::<StreamingAnalyzer>(c, ending) == c.step(
                EventView::ObjectEnd,
            ).step(EventView::DocumentEnd)
            &&& ingest::accepts_all::<StreamingAnalyzer>(s, all) ==> ingest::accepts_all::<
                StreamingAnalyzer,
            >(c, ending)
            &&& all.len() == inner.len() + 4
        }),
{
    events::lemma_framed::<StreamingAnalyzer>(
        s,
        EventView::DocumentBegin(ordinal),
        EventView::ObjectBegin,
        events::member_events(members),
        EventView::ObjectEnd,
        EventView::DocumentEnd,
    );
}

/// One object as a document.
proof fn lemma_object_document(
    s: State,
    ordinal: u64,
    members: Seq<(Seq<char>, JsonView)>,
    n: int,
    known: Seq<Seq<char>>,
    total: int,
)
    requires
        s.wf(),
        s.idle(),
        laws::members_countable(members, s.policy.cluster_cap),
        s.events + events::document_events(ordinal, JsonView::Object(members)).len() <= u64::MAX,
        if n == 0 {
            s.arena[0] == NodeView::empty() && known.len() == 0 && total == 0
        } else {
            root_is(s.arena[0], s.policy.record_view_cap, n, known, total)
        },
        n >= 0,
    ensures
        ({
            let v = JsonView::Object(members);
            let t = ingest::after_all::<StreamingAnalyzer>(
                s,
                events::document_events(ordinal, v),
            );
            &&& ingest::accepts_all::<StreamingAnalyzer>(s, events::document_events(ordinal, v))
            &&& root_is(
                t.arena[0],
                s.policy.record_view_cap,
                n + 1,
                with_keys(known, members),
                total + members.len(),
            )
            &&& t.arena[0].first_doc == (if n == 0 {
                ordinal
            } else {
                s.arena[0].first_doc
            })
            &&& t.arena[0].last_doc == ordinal
            &&& forall|m: int|
                0 <= m < members.len() ==> kept(
                    t.arena,
                    (#[trigger] members[m]).0,
                    members[m].1,
                )
        }),
{
    let v = JsonView::Object(members);
    lemma_document_events(s, ordinal, members);
    laws::law_documents_are_taken(s, ordinal, v);
    lemma_opened(s, ordinal, n, known, total);
    let b = s.step(EventView::DocumentBegin(ordinal)).step(EventView::ObjectBegin);
    lemma_members_at_root(b, members, n + 1, known, total);
    let c = ingest::after_all::<StreamingAnalyzer>(b, events::member_events(members));
    lemma_closed(c, n + 1, with_keys(known, members), total + members.len());
    let ending = seq![EventView::ObjectEnd, EventView::DocumentEnd];
    let t = ingest::after_all::<StreamingAnalyzer>(c, ending);
    assert forall|m: int| 0 <= m < members.len() implies kept(
        t.arena,
        (#[trigger] members[m]).0,
        members[m].1,
    ) by {
        lemma_kept_inside(c, ending, members[m].0, members[m].1);
    }
}

proof fn lemma_front(docs: Seq<(u64, JsonView)>, cap: usize)
    requires
        docs.len() > 0,
        all_objects(docs),
        inference::all_countable(docs, cap),
    ensures
        all_objects(docs.drop_last()),
        inference::all_countable(docs.drop_last(), cap),
        docs.last().1 is Object,
        laws::members_countable(docs.last().1->Object_0, cap),
{
    let front = docs.drop_last();
    assert(docs[docs.len() - 1] == docs.last());
    assert forall|i: int| 0 <= i < front.len() implies (#[trigger] front[i]).1 is Object by {
        assert(front[i] == docs[i]);
    }
    assert forall|i: int| 0 <= i < front.len() implies laws::countable(
        (#[trigger] front[i]).1,
        cap,
    ) by {
        assert(front[i] == docs[i]);
    }
    assert(laws::countable(docs[docs.len() - 1].1, cap));
}

/// A stream of objects.
proof fn lemma_objects(policy: PolicyView, bounds: Seq<u64>, docs: Seq<(u64, JsonView)>)
    requires
        all_objects(docs),
        inference::all_countable(docs, policy.cluster_cap),
        inference::event_count(docs) <= u64::MAX,
    ensures
        ({
            let s = inference::fed(State::initial(policy, bounds), docs);
            &&& docs.len() == 0 ==> s == State::initial(policy, bounds)
            &&& docs.len() > 0 ==> {
                &&& root_is(
                    s.arena[0],
                    policy.record_view_cap,
                    docs.len() as int,
                    keys_of(docs),
                    optional::key_count(docs),
                )
                &&& s.arena[0].first_doc == docs[0].0
                &&& s.arena[0].last_doc == docs.last().0
            }
        }),
    decreases docs.len(),
{
    upkeep::law_invariant_holds_at_first(policy, bounds);
    let start = State::initial(policy, bounds);
    if docs.len() > 0 {
        let front = docs.drop_last();
        lemma_front(docs, policy.cluster_cap);
        inference::law_streams_are_counted(start, front);
        lemma_objects(policy, bounds, front);
        lemma_object_document(
            inference::fed(start, front),
            docs.last().0,
            docs.last().1->Object_0,
            front.len() as int,
            keys_of(front),
            optional::key_count(front),
        );
        if front.len() > 0 {
            assert(front[0] == docs[0]);
        }
    }
}

/// What a field of the root has seen in some document is kept.
proof fn lemma_objects_kept(
    policy: PolicyView,
    bounds: Seq<u64>,
    docs: Seq<(u64, JsonView)>,
    d: int,
    m: int,
)
    requires
        all_objects(docs),
        inference::all_countable(docs, policy.cluster_cap),
        inference::event_count(docs) <= u64::MAX,
        0 <= d < docs.len(),
        0 <= m < docs[d].1->Object_0.len(),
    ensures
        kept(
            inference::fed(State::initial(policy, bounds), docs).arena,
            docs[d].1->Object_0[m].0,
            docs[d].1->Object_0[m].1,
        ),
    decreases docs.len(),
{
    let front = docs.drop_last();
    let start = State::initial(policy, bounds);
    let (ordinal, v) = docs.last();
    upkeep::law_invariant_holds_at_first(policy, bounds);
    lemma_front(docs, policy.cluster_cap);
    inference::law_streams_are_counted(start, front);
    let a = inference::fed(start, front);
    lemma_objects(policy, bounds, front);
    lemma_object_document(
        a,
        ordinal,
        v->Object_0,
        front.len() as int,
        keys_of(front),
        optional::key_count(front),
    );
    if d < front.len() {
        assert(front[d] == docs[d]);
        lemma_objects_kept(policy, bounds, front, d, m);
        memory::law_nothing_is_taken_back(a, events::document_events(ordinal, v));
        lemma_kept(
            a,
            inference::fed(start, docs).arena,
            docs[d].1->Object_0[m].0,
            docs[d].1->Object_0[m].1,
        );
    } else {
        assert(docs[d] == docs.last());
        assert(docs[d].1->Object_0[m] == v->Object_0[m]);
    }
}

// ---------------------------------------------------------------------
// Shapes
// ---------------------------------------------------------------------

/// A shape of the kind that a value is of.
pub open spec fn suits(kind: KindView, v: JsonView) -> bool {
    match v {
        JsonView::Null => kind == KindView::Type(TypeView::Null),
        JsonView::Bool(_) => kind == KindView::Type(TypeView::Bool),
        JsonView::Number(Number::Positive(u)) => if u <= i64::MAX {
            kind == KindView::Type(TypeView::I64)
        } else {
            kind == KindView::Type(TypeView::U64)
        },
        JsonView::Number(Number::Negative(_)) => kind == KindView::Type(TypeView::I64),
        JsonView::Number(Number::Float(_)) => kind == KindView::Type(TypeView::F64),
        JsonView::Text(_) => kind == KindView::Type(TypeView::String),
        JsonView::Array(_) => kind is Array || kind is Tuple || (kind matches KindView::Type(t)
            && t is Array),
        JsonView::Object(_) => kind is Record || kind is Mapping || (kind matches KindView::Type(
            t,
        ) && (t is Struct || t is Mapping)),
    }
}

/// A shape of that kind, or a variant with an arm of that kind.
pub open spec fn shows(s: ShapeView, v: JsonView) -> bool {
    ||| suits(s.kind, v)
    ||| s.kind matches KindView::Variant { arms } && exists|i: int|
        0 <= i < arms.len() && suits((#[trigger] arms[i]).kind, v)
}

/// What a node has seen is told by its shape.
proof fn lemma_shown(arena: Seq<NodeView>, id: int, v: JsonView)
    requires
        0 <= id < arena.len(),
        arena[id].scalar_arms.len() == 6,
        evident(arena[id], v),
    ensures
        shows(finish::shape_at(arena, id), v),
{
    let n = arena[id];
    reveal_with_fuel(finish::scalar_shapes, 7);
    let scalars = finish::scalar_shapes(n, 6);
    let some = if n.object is Some {
        scalars.push(finish::object_shape(arena, id))
    } else {
        scalars
    };
    let arms = if n.array is Some {
        some.push(finish::array_shape(arena, id))
    } else {
        some
    };
    assert(finish::shape_at(arena, id) == finish::one_of(arms, finish::node_stats(n)));
    let place = match v {
        JsonView::Null => 0int,
        JsonView::Bool(_) => 1,
        JsonView::Number(Number::Positive(u)) => if u <= i64::MAX {
            2
        } else {
            3
        },
        JsonView::Number(Number::Negative(_)) => 2,
        JsonView::Number(Number::Float(_)) => 4,
        JsonView::Text(_) => 5,
        _ => 6,
    };
    let at = match v {
        JsonView::Array(_) => arms.len() - 1,
        JsonView::Object(_) => scalars.len() as int,
        _ => finish::scalar_shapes(n, place).len() as int,
    };
    if place < 6 {
        lemma_scalar_at(n, place, 6);
        assert(scalars[at].kind == KindView::Type(shape::kind_type(ScalarKind::nth(place))));
    }
    assert(0 <= at < arms.len() && suits(arms[at].kind, v));
}

proof fn lemma_scalar_at(n: NodeView, place: int, k: int)
    requires
        0 <= place < k <= 6,
        n.scalar_arms[place] > 0,
    ensures
        finish::scalar_shapes(n, place).len() < finish::scalar_shapes(n, k).len(),
        finish::scalar_shapes(n, k)[finish::scalar_shapes(n, place).len() as int].kind
            == KindView::Type(shape::kind_type(ScalarKind::nth(place))),
    decreases k,
{
    if place < k - 1 {
        lemma_scalar_at(n, place, k - 1);
    }
}

proof fn lemma_nullish(s: ShapeView)
    requires
        shows(s, JsonView::Null),
    ensures
        shape::nullish(s),
{
    if let KindView::Variant { arms } = s.kind {
        let i = choose|i: int|
            0 <= i < arms.len() && suits((#[trigger] arms[i]).kind, JsonView::Null);
        lemma_any_nullish(arms, i);
    }
}

proof fn lemma_any_nullish(arms: Seq<ShapeView>, i: int)
    requires
        0 <= i < arms.len(),
        shape::nullish(arms[i]),
    ensures
        shape::any_nullish(arms),
    decreases arms.len(),
{
    if i < arms.len() - 1 {
        assert(arms.drop_last()[i] == arms[i]);
        lemma_any_nullish(arms.drop_last(), i);
    }
}

proof fn lemma_field_at(arena: Seq<NodeView>, k: int, i: int)
    requires
        0 <= i < k,
    ensures
        ({
            let f = finish::field_shapes(arena, 0, k);
            let o = arena[0].object->Some_0;
            let s = finish::child_shape(arena, 0, o.fields[i].1);
            &&& f.len() == k
            &&& f[i].name == o.fields[i].0
            &&& f[i].shape == s
            &&& f[i].nullable == (arena[o.fields[i].1].obs < o.obs || shape::nullish(s))
        }),
    decreases k,
{
    if i < k - 1 {
        lemma_field_at(arena, k - 1, i);
    } else if k > 1 {
        lemma_field_at(arena, k - 1, 0);
    } else {
        assert(finish::field_shapes(arena, 0, 0).len() == 0);
    }
}

proof fn lemma_flat_fields(v: Seq<ShapeFieldView>, i: int)
    requires
        0 <= i < v.len(),
    ensures
        ({
            let f = shape::flattened_fields(v);
            &&& f.len() == v.len()
            &&& f[i].name == v[i].name
            &&& f[i].nullable == v[i].nullable
            &&& f[i].value_type == shape::flattened(v[i].shape)
        }),
        shape::flat_fields(v) ==> shape::flat(v[i].shape),
    decreases v.len(),
{
    let front = v.drop_last();
    if i < front.len() {
        assert(front[i] == v[i]);
        lemma_flat_fields(front, i);
    } else if front.len() > 0 {
        lemma_flat_fields(front, 0);
    } else {
        assert(shape::flattened_fields(front).len() == 0);
    }
}

// ---------------------------------------------------------------------
// Laws
// ---------------------------------------------------------------------

/// The names of the fields of a record, where the shape is one.
pub open spec fn record_names(s: ShapeView) -> Option<Seq<Seq<char>>> {
    match s.kind {
        KindView::Record { fields } => Some(fields.map_values(|f: ShapeFieldView| f.name)),
        KindView::Type(TypeView::Struct { fields }) => Some(
            fields.map_values(|f: StructFieldView| f.name),
        ),
        _ => None,
    }
}

/// A map with texts as keys.
pub open spec fn is_map(s: ShapeView) -> bool {
    match s.kind {
        KindView::Mapping { key, .. } => key.kind == KindView::Type(TypeView::String),
        KindView::Type(TypeView::Mapping { key_type, .. }) => *key_type == TypeView::String,
        _ => false,
    }
}

proof fn lemma_key_count(docs: Seq<(u64, JsonView)>)
    ensures
        optional::key_count(docs) >= 0,
    decreases docs.len(),
{
    if docs.len() > 0 {
        lemma_key_count(docs.drop_last());
    }
}

/// The arms of a root that has seen nothing but objects: one.
proof fn lemma_root_shape(s: State, n: int, known: Seq<Seq<char>>, total: int)
    requires
        root_is(s.arena[0], s.policy.record_view_cap, n, known, total),
    ensures
        engine::root_shape(s) == finish::object_shape(s.arena, 0),
{
    reveal(root_is);
    reveal_with_fuel(finish::scalar_shapes, 7);
    assert(finish::scalar_shapes(s.arena[0], 6) =~= Seq::empty());
    let arms = Seq::<ShapeView>::empty().push(finish::object_shape(s.arena, 0));
    assert(arms.len() == 1);
}

/// A stream of objects is found to be a record, with a field for every key in
/// the order in which the keys were first seen, or a map. It is a map where
/// there are more keys than the record view keeps, or where there are sixteen
/// or more, and more than four times as many as an object has on average.
/// Every document is counted, from the first to the last.
pub proof fn law_records_and_maps_are_told_apart(
    policy: PolicyView,
    bounds: Seq<u64>,
    docs: Seq<(u64, JsonView)>,
)
    requires
        docs.len() > 0,
        all_objects(docs),
        inference::all_countable(docs, policy.cluster_cap),
        inference::event_count(docs) <= u64::MAX,
    ensures
        ({
            let s = engine::root_shape(inference::fed(State::initial(policy, bounds), docs));
            let keys = keys_of(docs);
            let wide = keys.len() > policy.record_view_cap || (keys.len() >= 16 && keys.len()
                * docs.len() > 4 * optional::key_count(docs));
            &&& !wide ==> record_names(s) == Some(keys)
            &&& wide ==> is_map(s)
            &&& s.stats.observation_count == docs.len()
            &&& s.stats.first_doc_ordinal == docs[0].0
            &&& s.stats.last_doc_ordinal == docs.last().0
        }),
{
    lemma_objects(policy, bounds, docs);
    lemma_key_count(docs);
    upkeep::law_invariant_holds_at_first(policy, bounds);
    inference::law_streams_are_counted(State::initial(policy, bounds), docs);
    let t = inference::fed(State::initial(policy, bounds), docs);
    let keys = keys_of(docs);
    lemma_root_shape(t, docs.len() as int, keys, optional::key_count(docs));
    reveal(root_is);
    let s = engine::root_shape(t);
    let o = t.object_at(0);
    let n = o.fields.len() as int;
    assert(names(o.fields).len() == n);
    if o.map_reason() is None {
        let f = finish::field_shapes(t.arena, 0, n);
        assert forall|i: int| 0 <= i < n implies f[i].name == keys[i] && f.len() == n by {
            lemma_field_at(t.arena, n, i);
            assert(names(o.fields)[i] == o.fields[i].0);
        }
        if n == 0 {
            assert(f.len() == 0);
        } else {
            lemma_field_at(t.arena, n, 0);
        }
        if shape::flat_fields(f) {
            let g = shape::flattened_fields(f);
            if n > 0 {
                lemma_flat_fields(f, 0);
            } else {
                assert(g.len() == 0);
            }
            assert forall|i: int| 0 <= i < n implies g[i].name == keys[i] by {
                lemma_flat_fields(f, i);
            }
            assert(g.map_values(|f: StructFieldView| f.name) =~= keys);
        } else {
            assert(f.map_values(|f: ShapeFieldView| f.name) =~= keys);
        }
    }
}

/// Whatever was seen at a key of the objects of a stream is told of the field:
/// it is of the kind of that value, or a variant with an arm of that kind. A
/// field at which a null was seen is nullable, whatever else was seen there.
pub proof fn law_seen_values_are_told(
    policy: PolicyView,
    bounds: Seq<u64>,
    docs: Seq<(u64, JsonView)>,
    d: int,
    m: int,
)
    requires
        all_objects(docs),
        inference::all_countable(docs, policy.cluster_cap),
        inference::event_count(docs) <= u64::MAX,
        0 <= d < docs.len(),
        0 <= m < docs[d].1->Object_0.len(),
    ensures
        ({
            let s = engine::root_shape(inference::fed(State::initial(policy, bounds), docs));
            let (key, v) = docs[d].1->Object_0[m];
            match s.kind {
                KindView::Record { fields } => exists|i: int|
                    0 <= i < fields.len() && (#[trigger] fields[i]).name == key && shows(
                        fields[i].shape,
                        v,
                    ) && (v is Null ==> fields[i].nullable),
                KindView::Type(TypeView::Struct { fields }) => exists|i: int|
                    0 <= i < fields.len() && (#[trigger] fields[i]).name == key && suits(
                        KindView::Type(fields[i].value_type),
                        v,
                    ) && (v is Null ==> fields[i].nullable),
                _ => is_map(s),
            }
        }),
{
    upkeep::law_invariant_holds_at_first(policy, bounds);
    inference::law_streams_are_counted(State::initial(policy, bounds), docs);
    lemma_objects(policy, bounds, docs);
    lemma_objects_kept(policy, bounds, docs, d, m);
    law_records_and_maps_are_told_apart(policy, bounds, docs);
    let t = inference::fed(State::initial(policy, bounds), docs);
    lemma_root_shape(t, docs.len() as int, keys_of(docs), optional::key_count(docs));
    let s = engine::root_shape(t);
    let (key, v) = docs[d].1->Object_0[m];
    let o = t.object_at(0);
    let n = o.fields.len() as int;
    reveal(kept);
    reveal(root_is);
    if o.map_reason() is None {
        let i = choose|i: int|
            0 <= i < o.fields.len() && (#[trigger] o.fields[i]).0 == key && 0 <= o.fields[i].1
                < t.arena.len() && evident(t.arena[o.fields[i].1], v);
        let child = o.fields[i].1;
        assert(t.arena[0].wf(0, t.arena.len() as int, t.policy.caps(), t.events));
        assert(t.arena[child].wf(child, t.arena.len() as int, t.policy.caps(), t.events));
        let f = finish::field_shapes(t.arena, 0, n);
        lemma_field_at(t.arena, n, i);
        lemma_shown(t.arena, child, v);
        assert(f[i].shape == finish::shape_at(t.arena, child));
        if v is Null {
            lemma_nullish(f[i].shape);
        }
        assert(f[i].name == key && shows(f[i].shape, v));
        if shape::flat_fields(f) {
            let g = shape::flattened_fields(f);
            lemma_flat_fields(f, i);
            assert(g[i].name == key && suits(KindView::Type(g[i].value_type), v));
        }
    }
}

} // verus!
